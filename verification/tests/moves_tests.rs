use backgammon::BoardState;
use backgammon::Move;
use backgammon::PlayerColor;
use backgammon::PointState;

fn blank_board() -> BoardState {
    let mut points =
        [PointState { checker_count: 0, checker_color: PlayerColor::Black }; 26];
    points[25] = PointState { checker_count: 0, checker_color: PlayerColor::White };
    BoardState { points, cur_player: PlayerColor::Black }
}

fn color_total(board: &BoardState, color: PlayerColor) -> usize {
    board
        .points
        .iter()
        .filter(|p| p.checker_color == color && p.checker_count > 0)
        .map(|p| p.checker_count)
        .sum()
}

#[test]
fn opening_moves_for_six() {
    let board = BoardState::new();
    let moves = board.get_moves_for_single_die(6);
    assert_eq!(moves, vec![Move(1, 7), Move(12, 18), Move(17, 23)]);
}

#[test]
fn opening_moves_for_five_skip_made_points() {
    let board = BoardState::new();
    // 1 -> 6 and 19 -> 24 are blocked by made White points
    let moves = board.get_moves_for_single_die(5);
    assert_eq!(moves, vec![Move(12, 17), Move(17, 22)]);
}

#[test]
fn white_moves_are_mirrored() {
    let mut board = BoardState::new();
    board.end_turn();
    let moves = board.get_moves_for_single_die(6);
    assert_eq!(moves, vec![Move(8, 2), Move(13, 7), Move(24, 18)]);
}

#[test]
fn bar_checker_must_enter_first() {
    let mut board = blank_board();
    board.points[0] = PointState { checker_count: 1, checker_color: PlayerColor::Black };
    board.points[22] = PointState { checker_count: 14, checker_color: PlayerColor::Black };
    board.points[13] = PointState { checker_count: 13, checker_color: PlayerColor::White };
    let moves = board.get_moves_for_single_die(3);
    assert_eq!(moves, vec![Move(0, 3)]);
    let moves = board.get_moves_for_single_die(4);
    assert_eq!(moves, vec![Move(0, 4)]);
}

#[test]
fn bar_entry_blocked_by_made_point() {
    let mut board = blank_board();
    board.points[0] = PointState { checker_count: 1, checker_color: PlayerColor::Black };
    board.points[22] = PointState { checker_count: 14, checker_color: PlayerColor::Black };
    board.points[4] = PointState { checker_count: 2, checker_color: PlayerColor::White };
    board.points[13] = PointState { checker_count: 13, checker_color: PlayerColor::White };
    assert_eq!(board.get_moves_for_single_die(3), vec![Move(0, 3)]);
    assert_eq!(board.get_moves_for_single_die(4), vec![]);
}

#[test]
fn bar_entry_onto_blot_is_allowed() {
    let mut board = blank_board();
    board.points[0] = PointState { checker_count: 1, checker_color: PlayerColor::Black };
    board.points[4] = PointState { checker_count: 1, checker_color: PlayerColor::White };
    board.points[13] = PointState { checker_count: 14, checker_color: PlayerColor::White };
    assert_eq!(board.get_moves_for_single_die(4), vec![Move(0, 4)]);
}

#[test]
fn bearing_off_requires_home_quarter() {
    let mut board = blank_board();
    // one Black checker still outside the home quarter
    board.points[18] = PointState { checker_count: 1, checker_color: PlayerColor::Black };
    board.points[20] = PointState { checker_count: 14, checker_color: PlayerColor::Black };
    board.points[13] = PointState { checker_count: 15, checker_color: PlayerColor::White };
    let moves = board.get_moves_for_single_die(6);
    // 20 + 6 overshoots but bearing off is not active; 18 + 6 = 24 stays on
    assert_eq!(moves, vec![Move(18, 24)]);
}

#[test]
fn only_farthest_checker_may_overshoot() {
    let mut board = blank_board();
    board.points[20] = PointState { checker_count: 1, checker_color: PlayerColor::Black };
    board.points[22] = PointState { checker_count: 14, checker_color: PlayerColor::Black };
    board.points[13] = PointState { checker_count: 15, checker_color: PlayerColor::White };
    // die 6: both origins overshoot, only the farthest (20) may leave
    assert_eq!(board.get_moves_for_single_die(6), vec![Move(20, 25)]);
    // die 3: 20 lands on 23, 22 lands exactly on the sentinel
    assert_eq!(board.get_moves_for_single_die(3), vec![Move(20, 23), Move(22, 25)]);
    // die 5: 20 bears off exactly, 22 overshoots and is not the farthest
    assert_eq!(board.get_moves_for_single_die(5), vec![Move(20, 25)]);
}

#[test]
fn white_bears_off_toward_index_zero() {
    let mut board = blank_board();
    board.points[2] = PointState { checker_count: 15, checker_color: PlayerColor::White };
    board.points[13] = PointState { checker_count: 15, checker_color: PlayerColor::Black };
    board.cur_player = PlayerColor::White;
    // real index 2 is canonical 23 for White; a 6 overshoots from the
    // farthest checker, leaving the board at White's own sentinel 0
    assert_eq!(board.get_moves_for_single_die(6), vec![Move(2, 0)]);
    board.apply_move(Move(2, 0));
    assert_eq!(board.points[2].checker_count, 14);
    // Black's bar at index 0 is untouched
    assert_eq!(board.points[0].checker_count, 0);
    assert_eq!(color_total(&board, PlayerColor::White), 14);
}

#[test]
fn no_checkers_means_no_moves() {
    let board = blank_board();
    assert_eq!(board.get_moves_for_single_die(3), vec![]);
    assert_eq!(board.get_move_seqs((3, 5)), Vec::<Vec<Move>>::new());
}

#[test]
fn apply_non_capturing_move() {
    let mut board = BoardState::new();
    board.apply_move(Move(1, 2));
    assert_eq!(board.points[1].checker_count, 1);
    assert_eq!(board.points[1].checker_color, PlayerColor::Black);
    assert_eq!(board.points[2].checker_count, 1);
    assert_eq!(board.points[2].checker_color, PlayerColor::Black);
    assert_eq!(color_total(&board, PlayerColor::Black), 15);
    assert_eq!(color_total(&board, PlayerColor::White), 15);
}

#[test]
fn apply_capturing_move_sends_blot_to_bar() {
    let mut board = blank_board();
    board.points[1] = PointState { checker_count: 2, checker_color: PlayerColor::Black };
    board.points[13] = PointState { checker_count: 13, checker_color: PlayerColor::Black };
    board.points[3] = PointState { checker_count: 1, checker_color: PlayerColor::White };
    board.points[6] = PointState { checker_count: 14, checker_color: PlayerColor::White };
    board.apply_move(Move(1, 3));
    assert_eq!(board.points[1].checker_count, 1);
    assert_eq!(board.points[3].checker_count, 1);
    assert_eq!(board.points[3].checker_color, PlayerColor::Black);
    // the captured White checker now waits on White's bar
    assert_eq!(board.points[25].checker_count, 1);
    assert_eq!(board.points[25].checker_color, PlayerColor::White);
    assert_eq!(color_total(&board, PlayerColor::Black), 15);
    assert_eq!(color_total(&board, PlayerColor::White), 15);
}

#[test]
fn white_capture_sends_blot_to_black_bar() {
    let mut board = blank_board();
    board.points[10] = PointState { checker_count: 1, checker_color: PlayerColor::Black };
    board.points[12] = PointState { checker_count: 14, checker_color: PlayerColor::Black };
    board.points[15] = PointState { checker_count: 15, checker_color: PlayerColor::White };
    board.cur_player = PlayerColor::White;
    board.apply_move(Move(15, 10));
    assert_eq!(board.points[15].checker_count, 14);
    assert_eq!(board.points[10].checker_count, 1);
    assert_eq!(board.points[10].checker_color, PlayerColor::White);
    assert_eq!(board.points[0].checker_count, 1);
    assert_eq!(board.points[0].checker_color, PlayerColor::Black);
}

#[test]
fn bearing_off_removes_a_checker() {
    let mut board = blank_board();
    board.points[20] = PointState { checker_count: 15, checker_color: PlayerColor::Black };
    board.points[13] = PointState { checker_count: 15, checker_color: PlayerColor::White };
    board.apply_move(Move(20, 25));
    assert_eq!(board.points[20].checker_count, 14);
    // the checker left the board entirely; White's bar is untouched
    assert_eq!(board.points[25].checker_count, 0);
    assert_eq!(color_total(&board, PlayerColor::Black), 14);
    assert_eq!(color_total(&board, PlayerColor::White), 15);
}

#[test]
fn apply_move_seq_applies_in_order() {
    let mut board = BoardState::new();
    board.apply_move_seq(&vec![Move(1, 7), Move(7, 12)]);
    assert_eq!(board.points[1].checker_count, 1);
    assert_eq!(board.points[7].checker_count, 0);
    assert_eq!(board.points[12].checker_count, 6);
    assert_eq!(color_total(&board, PlayerColor::Black), 15);
}

#[test]
fn with_move_leaves_original_untouched() {
    let board = BoardState::new();
    let next = board.with_move(Move(1, 2));
    assert_eq!(board.points[1].checker_count, 2);
    assert_eq!(board.points[2].checker_count, 0);
    assert_eq!(next.points[1].checker_count, 1);
    assert_eq!(next.points[2].checker_count, 1);
    assert_eq!(next.cur_player, PlayerColor::Black);
}

#[test]
fn with_move_seq_leaves_original_untouched() {
    let board = BoardState::new();
    let next = board.with_move_seq(&vec![Move(1, 7), Move(7, 12)]);
    assert_eq!(board.points[12].checker_count, 5);
    assert_eq!(next.points[12].checker_count, 6);
}
