use backgammon::BoardState;
use backgammon::Move;
use backgammon::PlayerColor;
use backgammon::PointState;

fn blank_board() -> BoardState {
    let mut points =
        [PointState { checker_count: 0, checker_color: PlayerColor::Black }; 26];
    points[25] = PointState { checker_count: 0, checker_color: PlayerColor::White };
    BoardState { points, cur_player: PlayerColor::Black }
}

fn color_total(board: &BoardState, color: PlayerColor) -> usize {
    board
        .points
        .iter()
        .filter(|p| p.checker_color == color && p.checker_count > 0)
        .map(|p| p.checker_count)
        .sum()
}

#[test]
fn inverse_swaps_colors() {
    assert_eq!(PlayerColor::Black.inverse(), PlayerColor::White);
    assert_eq!(PlayerColor::White.inverse(), PlayerColor::Black);
}

#[test]
fn point_state_emptiness_and_ownership() {
    let empty = PointState { checker_count: 0, checker_color: PlayerColor::Black };
    assert!(empty.is_empty());
    assert!(!empty.is_used_by(PlayerColor::Black));
    assert!(!empty.is_used_by(PlayerColor::White));
    let held = PointState { checker_count: 3, checker_color: PlayerColor::White };
    assert!(!held.is_empty());
    assert!(held.is_used_by(PlayerColor::White));
    assert!(!held.is_used_by(PlayerColor::Black));
}

#[test]
fn die_roll_is_distance() {
    assert_eq!(Move(1, 7).die_roll(), 6);
    assert_eq!(Move(7, 1).die_roll(), 6);
    assert_eq!(Move(20, 25).die_roll(), 5);
    assert_eq!(Move(0, 3).die_roll(), 3);
}

#[test]
fn starting_layout_is_standard() {
    let board = BoardState::new();
    assert_eq!(board.cur_player, PlayerColor::Black);
    let expect = |i: usize, count: usize, color: PlayerColor| {
        assert_eq!(board.points[i].checker_count, count, "index {}", i);
        if count > 0 {
            assert_eq!(board.points[i].checker_color, color, "index {}", i);
        }
    };
    expect(0, 0, PlayerColor::Black);
    expect(1, 2, PlayerColor::Black);
    expect(6, 5, PlayerColor::White);
    expect(8, 3, PlayerColor::White);
    expect(12, 5, PlayerColor::Black);
    expect(13, 5, PlayerColor::White);
    expect(17, 3, PlayerColor::Black);
    expect(19, 5, PlayerColor::Black);
    expect(24, 2, PlayerColor::White);
    expect(25, 0, PlayerColor::White);
    for i in [2, 3, 4, 5, 7, 9, 10, 11, 14, 15, 16, 18, 20, 21, 22, 23] {
        assert_eq!(board.points[i].checker_count, 0, "index {}", i);
    }
}

#[test]
fn starting_board_has_fifteen_checkers_each() {
    let board = BoardState::new();
    assert_eq!(color_total(&board, PlayerColor::Black), 15);
    assert_eq!(color_total(&board, PlayerColor::White), 15);
}

#[test]
fn used_points_lists_occupied_indices_in_order() {
    let board = BoardState::new();
    assert_eq!(board.used_points(PlayerColor::Black), vec![1, 12, 17, 19]);
    assert_eq!(board.used_points(PlayerColor::White), vec![6, 8, 13, 24]);
}

#[test]
fn bar_points_and_sentinels() {
    assert_eq!(BoardState::get_bar_point(PlayerColor::Black), 0);
    assert_eq!(BoardState::get_bar_point(PlayerColor::White), 25);
    assert!(BoardState::is_bar_point(0));
    assert!(BoardState::is_bar_point(25));
    assert!(!BoardState::is_bar_point(1));
    assert!(!BoardState::is_bar_point(24));
}

#[test]
fn checker_strings() {
    assert_eq!(BoardState::get_checker_string(PlayerColor::Black), "b");
    assert_eq!(BoardState::get_checker_string(PlayerColor::White), "w");
}

#[test]
fn end_turn_only_flips_player() {
    let mut board = BoardState::new();
    let before = board.points;
    board.end_turn();
    assert_eq!(board.cur_player, PlayerColor::White);
    for i in 0..26 {
        assert_eq!(board.points[i].checker_count, before[i].checker_count);
        assert_eq!(board.points[i].checker_color, before[i].checker_color);
    }
    board.end_turn();
    assert_eq!(board.cur_player, PlayerColor::Black);
}

#[test]
fn no_winner_at_start() {
    let board = BoardState::new();
    assert_eq!(board.get_winner(), None);
}

#[test]
fn winner_is_the_color_with_no_checkers_left() {
    let mut board = blank_board();
    board.points[13] = PointState { checker_count: 15, checker_color: PlayerColor::White };
    assert_eq!(board.get_winner(), Some(PlayerColor::Black));
    let mut board = blank_board();
    board.points[5] = PointState { checker_count: 15, checker_color: PlayerColor::Black };
    assert_eq!(board.get_winner(), Some(PlayerColor::White));
}

#[test]
fn empty_board_has_no_winner() {
    let board = blank_board();
    assert_eq!(board.get_winner(), None);
}
