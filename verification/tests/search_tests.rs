use backgammon::BoardState;
use backgammon::Move;
use backgammon::PlayerColor;
use backgammon::PointState;

fn blank_board() -> BoardState {
    let mut points =
        [PointState { checker_count: 0, checker_color: PlayerColor::Black }; 26];
    points[25] = PointState { checker_count: 0, checker_color: PlayerColor::White };
    BoardState { points, cur_player: PlayerColor::Black }
}

#[test]
fn opening_six_five_sequences_all_have_length_two() {
    let board = BoardState::new();
    let seqs = board.get_move_seqs((6, 5));
    assert!(!seqs.is_empty());
    for seq in &seqs {
        assert_eq!(seq.len(), 2);
    }
    // the familiar running play 1 -> 7 -> 12 is among them
    assert!(seqs.contains(&vec![Move(1, 7), Move(7, 12)]));
}

#[test]
fn double_uses_four_dice() {
    let board = BoardState::new();
    let seqs = board.get_move_seqs((1, 1));
    assert!(!seqs.is_empty());
    for seq in &seqs {
        assert_eq!(seq.len(), 4);
        for m in seq {
            assert_eq!(m.die_roll(), 1);
        }
    }
}

#[test]
fn both_orderings_are_tried() {
    let board = BoardState::new();
    let seqs = board.get_move_seqs((6, 5));
    // 6 first and 5 first both appear among the surviving sequences
    assert!(seqs.iter().any(|s| s[0].die_roll() == 6));
    assert!(seqs.iter().any(|s| s[0].die_roll() == 5));
}

#[test]
fn no_legal_play_yields_no_sequences() {
    let mut board = blank_board();
    // Black is stuck on the bar: both entry points are made by White
    board.points[0] = PointState { checker_count: 15, checker_color: PlayerColor::Black };
    board.points[2] = PointState { checker_count: 7, checker_color: PlayerColor::White };
    board.points[5] = PointState { checker_count: 8, checker_color: PlayerColor::White };
    let seqs = board.get_move_seqs((2, 5));
    assert!(seqs.is_empty());
}

#[test]
fn larger_die_wins_the_tie_break() {
    let mut board = blank_board();
    // one Black checker; either die can be played alone, but the moved
    // checker is then blocked, so only one die is ever usable
    board.points[1] = PointState { checker_count: 1, checker_color: PlayerColor::Black };
    board.points[6] = PointState { checker_count: 15, checker_color: PlayerColor::White };
    let seqs = board.get_move_seqs((2, 3));
    assert_eq!(seqs, vec![vec![Move(1, 4)]]);
    let seqs = board.get_move_seqs((3, 2));
    assert_eq!(seqs, vec![vec![Move(1, 4)]]);
}

#[test]
fn tie_break_stays_out_when_both_orders_use_the_same_value() {
    let mut board = blank_board();
    // the last Black checker bears off with either die; both orderings
    // produce the same single move, so nothing is filtered away
    board.points[23] = PointState { checker_count: 1, checker_color: PlayerColor::Black };
    board.points[13] = PointState { checker_count: 15, checker_color: PlayerColor::White };
    let seqs = board.get_move_seqs((6, 5));
    assert_eq!(seqs, vec![vec![Move(23, 25)], vec![Move(23, 25)]]);
}

#[test]
fn partial_play_survives_when_no_continuation_exists() {
    let mut board = blank_board();
    // Black can play a 2 from 1, but afterwards (and beforehand) the 3 has
    // no legal move anywhere; the single-move play is still offered
    board.points[1] = PointState { checker_count: 1, checker_color: PlayerColor::Black };
    board.points[4] = PointState { checker_count: 2, checker_color: PlayerColor::White };
    board.points[6] = PointState { checker_count: 13, checker_color: PlayerColor::White };
    let seqs = board.get_move_seqs((2, 3));
    assert_eq!(seqs, vec![vec![Move(1, 3)]]);
}

#[test]
fn forced_maximal_play_drops_shorter_sequences() {
    let mut board = blank_board();
    // Black has checkers on 1 and 10.  Playing 2 from 1 first dead-ends:
    // both follow-ups with the 3 (3 -> 6 and 10 -> 13) are blocked.  Every
    // other line plays both dice, so the lone one-move line is dropped.
    board.points[1] = PointState { checker_count: 1, checker_color: PlayerColor::Black };
    board.points[10] = PointState { checker_count: 1, checker_color: PlayerColor::Black };
    board.points[6] = PointState { checker_count: 2, checker_color: PlayerColor::White };
    board.points[13] = PointState { checker_count: 2, checker_color: PlayerColor::White };
    let seqs = board.get_move_seqs((2, 3));
    assert_eq!(
        seqs,
        vec![
            vec![Move(10, 12), Move(1, 4)],
            vec![Move(10, 12), Move(12, 15)],
            vec![Move(1, 4), Move(10, 12)],
        ]
    );
}

#[test]
fn white_sequences_are_mirrored() {
    let mut board = blank_board();
    board.points[24] = PointState { checker_count: 1, checker_color: PlayerColor::White };
    board.points[12] = PointState { checker_count: 15, checker_color: PlayerColor::Black };
    board.cur_player = PlayerColor::White;
    // White's 24 is canonical 1; with (2,3) the checker walks toward low
    // real indices: 24 -> 22 -> 19 or 24 -> 21 -> 19
    let seqs = board.get_move_seqs((2, 3));
    assert!(!seqs.is_empty());
    for seq in &seqs {
        assert_eq!(seq.len(), 2);
    }
    assert!(seqs.contains(&vec![Move(24, 22), Move(22, 19)]));
    assert!(seqs.contains(&vec![Move(24, 21), Move(21, 19)]));
}
