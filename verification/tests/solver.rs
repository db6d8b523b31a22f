use tictactoe::bit_board::{BitBoard, TOP_ROW};
use tictactoe::board::Board;
use tictactoe::engine::{
    Engine, Outcome, Score, DRAWING_SCORE, LOOKUP_SIZE, LOSING_SCORE, UNKNOWN_SCORE, WINNING_SCORE,
};

fn board_of(x: u16, o: u16) -> Board {
    Board { x: BitBoard::new(x), o: BitBoard::new(o) }
}

#[test]
fn fresh_table_is_all_unknown() {
    let engine = Engine::new();
    assert_eq!(engine.transposition_table.len(), LOOKUP_SIZE);
    assert_eq!(engine.transposition_table[0], Score(UNKNOWN_SCORE));
    assert_eq!(engine.transposition_table[LOOKUP_SIZE - 1], Score(UNKNOWN_SCORE));
}

#[test]
fn game_value_of_the_empty_board_is_a_draw() {
    let mut engine = Engine::new();
    let score = engine.search(Board::empty(), true);
    assert_eq!(score, Score(DRAWING_SCORE));
}

#[test]
fn terminal_loss_when_the_opponent_has_a_line() {
    let mut engine = Engine::new();
    // X holds the whole top row and O is to move: O has already lost
    let score = engine.search(board_of(TOP_ROW, 0), false);
    assert_eq!(score, Score(LOSING_SCORE));
}

#[test]
fn full_board_without_a_line_is_a_draw() {
    // X on cells 0, 1, 5, 6, 7 and O on cells 2, 3, 4, 8: all nine
    // cells filled, no line for either side, O nominally to move
    let x = 0b011_100_011;
    let o = 0b100_011_100;
    assert_eq!(x | o, 0x1FF);
    assert!(!BitBoard::new(x).has_won());
    assert!(!BitBoard::new(o).has_won());
    let mut engine = Engine::new();
    let score = engine.search(board_of(x, o), false);
    assert_eq!(score, Score(DRAWING_SCORE));
}

#[test]
fn search_is_deterministic_across_call_histories() {
    // X in a corner, O to move
    let position = board_of(0b000_000_001, 0);

    let mut fresh = Engine::new();
    let direct = fresh.search(position, false);

    let mut warmed = Engine::new();
    warmed.search(Board::empty(), true);
    let after_full_solve = warmed.search(position, false);
    assert_eq!(direct, after_full_solve);

    // and asking the same engine again answers from the table
    let again = warmed.search(position, false);
    assert_eq!(direct, again);
}

#[test]
fn a_corner_start_is_still_a_draw() {
    let mut engine = Engine::new();
    let score = engine.search(board_of(0b000_000_001, 0), false);
    assert_eq!(score, Score(DRAWING_SCORE));
}

#[test]
fn a_fork_wins_for_x() {
    // X in a corner and the centre, O on the adjacent edge and the
    // opposite corner, X to move: marking cell 6 threatens two lines
    // at once, and O can only block one of them
    let mut engine = Engine::new();
    let score = engine.search(board_of(0b000_010_001, 0b100_000_010), true);
    assert_eq!(score, Score(WINNING_SCORE));
}

#[test]
fn every_resolved_entry_is_one_of_the_three_scores() {
    let mut engine = Engine::new();
    engine.search(Board::empty(), true);
    let mut resolved = 0usize;
    for entry in engine.transposition_table.iter() {
        let v = entry.0;
        assert!(
            v == UNKNOWN_SCORE || v == WINNING_SCORE || v == DRAWING_SCORE || v == LOSING_SCORE
        );
        if v != UNKNOWN_SCORE {
            resolved += 1;
        }
    }
    // every reachable position was visited and resolved, yet most raw
    // bit patterns encode no reachable position
    assert!(resolved > 0);
    assert!(resolved < LOOKUP_SIZE);
}

#[test]
fn positions_reached_by_play_are_resolved() {
    let mut engine = Engine::new();
    engine.search(Board::empty(), true);
    // empty board, then X in the centre, then X centre and O corner
    for (x, o) in [(0u16, 0u16), (0b000_010_000, 0), (0b000_010_000, 0b000_000_001)] {
        let index = board_of(x, o).position_index();
        assert_ne!(engine.transposition_table[index], Score(UNKNOWN_SCORE));
    }
    // a position no alternate play reaches stays unknown
    let unreachable = board_of(TOP_ROW, 0).position_index();
    assert_eq!(engine.transposition_table[unreachable], Score(UNKNOWN_SCORE));
}

#[test]
fn rotated_and_mirrored_positions_score_alike() {
    // X on cells 0 and 4, O on cell 1, O to move; a quarter turn
    // carries the marks to cells 2 and 4, and cell 5
    let mut engine = Engine::new();
    let plain = engine.search(board_of(0b000_010_001, 0b000_000_010), false);
    let rotated = engine.search(board_of(0b000_010_100, 0b000_100_000), false);
    assert_eq!(plain, rotated);
    // the mirror carries them to cells 2 and 4, and cell 1
    let mirrored = engine.search(board_of(0b000_010_100, 0b000_000_010), false);
    assert_eq!(plain, mirrored);
}

#[test]
fn absolute_outcome_of_an_entry() {
    assert_eq!(
        tictactoe::engine::absolute_outcome(Score(WINNING_SCORE), true),
        Outcome::XWinning
    );
    assert_eq!(
        tictactoe::engine::absolute_outcome(Score(WINNING_SCORE), false),
        Outcome::OWinning
    );
    assert_eq!(
        tictactoe::engine::absolute_outcome(Score(LOSING_SCORE), true),
        Outcome::OWinning
    );
    assert_eq!(
        tictactoe::engine::absolute_outcome(Score(LOSING_SCORE), false),
        Outcome::XWinning
    );
    assert_eq!(
        tictactoe::engine::absolute_outcome(Score(DRAWING_SCORE), true),
        Outcome::Drawing
    );
    assert_eq!(
        tictactoe::engine::absolute_outcome(Score(DRAWING_SCORE), false),
        Outcome::Drawing
    );
}
