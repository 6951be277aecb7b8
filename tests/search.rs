use tower_cube::{
    advance_position, back_position, color_is_free, display_filter, empty_board_vec, evaluate_cube,
    find_available_tower, find_solutions, initialize_freetowers, render_board, Color, Position,
    Tower,
};

fn reference_heights() -> Vec<Vec<i32>> {
    vec![
        vec![0, 3, 4, 2, 1, 5],
        vec![2, 1, 5, 0, 3, 4],
        vec![5, 4, 2, 3, 0, 1],
        vec![4, 1, 3, 0, 5, 2],
        vec![3, 5, 1, 4, 2, 0],
        vec![1, 2, 0, 5, 4, 3],
    ]
}

fn is_sentinel(p: Position) -> bool {
    p.row == -1 || p.column == -1
}

fn placed_count(board: &Vec<Tower>) -> usize {
    board.iter().filter(|t| t.inuse).count()
}

fn check_solution(board: &Vec<Tower>, heights: &Vec<Vec<i32>>) {
    assert_eq!(board.len(), 36);
    for r in 0..6 {
        for c in 0..6 {
            let t = board[r * 6 + c];
            assert!(t.inuse);
            assert_eq!(t.height as i32, 6 - heights[r][c]);
        }
    }
    for a in 0..6 {
        for i in 0..6 {
            for j in 0..6 {
                if i != j {
                    assert_ne!(board[a * 6 + i].color, board[a * 6 + j].color);
                    assert_ne!(board[i * 6 + a].color, board[j * 6 + a].color);
                }
            }
        }
    }
}

#[test]
fn color_numbers_round_trip() {
    for n in 0u8..6 {
        let c = Color::from_int(n).unwrap();
        assert_eq!(c.int_value(), n);
    }
    assert_eq!(Color::from_int(2), Some(Color::Yellow));
    assert_eq!(Color::from_int(5), Some(Color::Purple));
    assert_eq!(Color::from_int(6), None);
    assert_eq!(Color::Orange.initial(), 'O');
    assert_eq!(Color::Purple.initial(), 'P');
}

#[test]
fn advance_walks_each_row_from_the_right() {
    let p = advance_position(Position::new(0, 5));
    assert_eq!((p.row, p.column), (0, 4));
    let p = advance_position(Position::new(0, 0));
    assert_eq!((p.row, p.column), (1, 5));
    let p = advance_position(Position::new(3, 2));
    assert_eq!((p.row, p.column), (3, 1));
}

#[test]
fn advance_from_last_cell_steps_back() {
    let p = advance_position(Position::new(5, 0));
    assert_eq!((p.row, p.column), (5, 1));
}

#[test]
fn back_walks_the_other_way() {
    let p = back_position(Position::new(0, 4));
    assert_eq!((p.row, p.column), (0, 5));
    let p = back_position(Position::new(2, 5));
    assert_eq!((p.row, p.column), (1, 0));
    let p = back_position(Position::new(0, 5));
    assert_eq!((p.row, p.column), (-1, 0));
    assert!(is_sentinel(p));
}

#[test]
fn fresh_inventory_has_every_pair_once() {
    let towers = initialize_freetowers();
    assert_eq!(towers.len(), 36);
    for h in 1i8..7 {
        for c in 0u8..6 {
            let color = Color::from_int(c).unwrap();
            let n = towers.iter().filter(|t| t.height == h && t.color == color).count();
            assert_eq!(n, 1);
        }
    }
    assert!(towers.iter().all(|t| !t.inuse));
    assert_eq!(towers[0].height, 1);
    assert_eq!(towers[0].color, Color::Red);
    assert_eq!(towers[35].height, 6);
    assert_eq!(towers[35].color, Color::Purple);
}

#[test]
fn find_tower_by_height_and_color() {
    let towers = initialize_freetowers();
    assert_eq!(find_available_tower(&towers, Tower::new(1, Color::Red, false)), 0);
    assert_eq!(find_available_tower(&towers, Tower::new(3, Color::Green, true)), 15);
    let mut fewer = towers.clone();
    fewer.remove(15);
    assert_eq!(find_available_tower(&fewer, Tower::new(3, Color::Green, false)), -1);
    assert_eq!(find_available_tower(&Vec::new(), Tower::new(3, Color::Green, false)), -1);
}

#[test]
fn color_free_looks_at_row_and_column() {
    let mut board = empty_board_vec();
    board[2 * 6 + 4] = Tower::new(3, Color::Blue, true);
    board[5 * 6 + 1] = Tower::new(2, Color::Green, false);
    assert!(!color_is_free(&board, Position::new(2, 0), Color::Blue));
    assert!(!color_is_free(&board, Position::new(0, 4), Color::Blue));
    assert!(color_is_free(&board, Position::new(1, 1), Color::Blue));
    assert!(color_is_free(&board, Position::new(2, 0), Color::Red));
    // an empty cell's color does not count
    assert!(color_is_free(&board, Position::new(5, 3), Color::Green));
}

#[test]
fn first_step_places_red_and_moves_on() {
    let heights = reference_heights();
    let mut board = empty_board_vec();
    let mut free = initialize_freetowers();
    let p = evaluate_cube(&mut board, &mut free, &heights, Position::new(0, 5));
    assert_eq!((p.row, p.column), (0, 4));
    let t = board[5];
    assert!(t.inuse);
    assert_eq!(t.color, Color::Red);
    assert_eq!(t.height, 1);
    assert_eq!(free.len(), 35);
    assert_eq!(find_available_tower(&free, Tower::new(1, Color::Red, false)), -1);
}

#[test]
fn step_skips_colors_already_in_the_row() {
    let heights = reference_heights();
    let mut board = empty_board_vec();
    let mut free = initialize_freetowers();
    let p = evaluate_cube(&mut board, &mut free, &heights, Position::new(0, 5));
    let p = evaluate_cube(&mut board, &mut free, &heights, p);
    assert_eq!((p.row, p.column), (0, 3));
    assert_eq!(board[4].color, Color::Orange);
    assert_eq!(board[4].height, 5);
}

#[test]
fn purple_cell_is_emptied_and_cursor_steps_back() {
    let heights = reference_heights();
    let mut board = empty_board_vec();
    let mut free = initialize_freetowers();
    let idx = find_available_tower(&free, Tower::new(1, Color::Purple, false)) as usize;
    free.remove(idx);
    board[5] = Tower::new(1, Color::Purple, true);
    let p = evaluate_cube(&mut board, &mut free, &heights, Position::new(0, 5));
    assert!(is_sentinel(p));
    assert!(!board[5].inuse);
    assert_eq!(free.len(), 36);
    assert!(find_available_tower(&free, Tower::new(1, Color::Purple, false)) >= 0);
}

#[test]
fn occupied_cell_moves_to_next_color_and_returns_old_tower() {
    let heights = reference_heights();
    let mut board = empty_board_vec();
    let mut free = initialize_freetowers();
    let p = evaluate_cube(&mut board, &mut free, &heights, Position::new(0, 5));
    let p = back_position(p);
    let p = evaluate_cube(&mut board, &mut free, &heights, p);
    assert_eq!((p.row, p.column), (0, 4));
    assert_eq!(board[5].color, Color::Orange);
    assert_eq!(free.len(), 35);
    assert!(find_available_tower(&free, Tower::new(1, Color::Red, false)) >= 0);
    assert_eq!(find_available_tower(&free, Tower::new(1, Color::Orange, false)), -1);
}

#[test]
fn empty_cell_without_candidate_steps_back() {
    let heights = reference_heights();
    let mut board = empty_board_vec();
    let mut free: Vec<Tower> = Vec::new();
    let p = evaluate_cube(&mut board, &mut free, &heights, Position::new(0, 4));
    assert_eq!((p.row, p.column), (0, 5));
    assert!(!board[4].inuse);
    assert!(free.is_empty());
}

#[test]
fn towers_are_conserved_at_every_step() {
    let heights = reference_heights();
    let mut board = empty_board_vec();
    let mut free = initialize_freetowers();
    let mut p = Position::new(0, 5);
    for _ in 0..200_000 {
        if is_sentinel(p) {
            break;
        }
        p = evaluate_cube(&mut board, &mut free, &heights, p);
        assert_eq!(placed_count(&board) + free.len(), 36);
    }
}

#[test]
fn stepping_is_deterministic() {
    let heights = reference_heights();
    let run = || {
        let mut board = empty_board_vec();
        let mut free = initialize_freetowers();
        let mut p = Position::new(0, 5);
        let mut trace: Vec<(i8, i8, usize)> = Vec::new();
        for _ in 0..100_000 {
            p = evaluate_cube(&mut board, &mut free, &heights, p);
            trace.push((p.row, p.column, free.len()));
        }
        (trace, board.iter().map(|t| (t.height, t.color, t.inuse)).collect::<Vec<_>>())
    };
    assert_eq!(run(), run());
}

#[test]
fn first_displayed_solution_has_yellow_and_orange() {
    let heights = reference_heights();
    let mut board = empty_board_vec();
    let mut free = initialize_freetowers();
    let mut p = Position::new(0, 5);
    let mut first: Option<Vec<Tower>> = None;
    let mut reported = 0usize;
    while !is_sentinel(p) {
        p = evaluate_cube(&mut board, &mut free, &heights, p);
        if free.is_empty() {
            reported += 1;
            check_solution(&board, &heights);
            if display_filter(&board) {
                first = Some(board.clone());
                break;
            }
        }
    }
    let first = first.expect("a displayed solution");
    assert!(reported > 1);
    assert_eq!(first[3 * 6 + 1].color, Color::Yellow);
    assert_eq!(first[3 * 6 + 3].color, Color::Orange);
}

#[test]
fn display_filter_checks_two_cells() {
    let mut board = empty_board_vec();
    assert!(!display_filter(&board));
    board[19] = Tower::new(5, Color::Yellow, true);
    board[21] = Tower::new(6, Color::Orange, true);
    assert!(display_filter(&board));
    board[21] = Tower::new(6, Color::Green, true);
    assert!(!display_filter(&board));
}

#[test]
fn missing_tower_search_ends_without_it() {
    let heights = reference_heights();
    let mut towers = initialize_freetowers();
    let idx = find_available_tower(&towers, Tower::new(6, Color::Red, false)) as usize;
    towers.remove(idx);
    let found = find_solutions(&heights, towers);
    for b in &found {
        assert!(!b.iter().any(|t| t.inuse && t.height == 6 && t.color == Color::Red));
    }
    assert!(found.is_empty());
}

#[test]
fn non_permutation_row_still_terminates() {
    let mut heights = reference_heights();
    heights[0] = vec![0, 0, 0, 0, 0, 0];
    let found = find_solutions(&heights, initialize_freetowers());
    assert!(found.is_empty());
}

#[test]
fn render_writes_initial_height_and_blanks() {
    let mut board = empty_board_vec();
    board[0] = Tower::new(6, Color::Purple, true);
    board[5] = Tower::new(1, Color::Red, true);
    board[35] = Tower::new(3, Color::Green, true);
    let text: String = render_board(&board).into_iter().collect();
    let lines: Vec<&str> = text.split('\n').collect();
    assert_eq!(lines.len(), 7);
    assert_eq!(lines[0], "P6         R1 ");
    assert_eq!(lines[1], "            ");
    assert_eq!(lines[5], "          G3 ");
    assert_eq!(lines[6], "");
}
