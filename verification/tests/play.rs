use tictactoe::game::{Game, MoveOutcome};

#[test]
fn read_input_accepts_well_formed_tokens() {
    let game = Game::new();
    assert_eq!(game.read_input("a1"), Some((0, 0)));
    assert_eq!(game.read_input("b2"), Some((1, 1)));
    assert_eq!(game.read_input("c3"), Some((2, 2)));
    assert_eq!(game.read_input("a3"), Some((0, 2)));
    // a trailing newline, as a read line carries, does not matter
    assert_eq!(game.read_input("c1\n"), Some((2, 0)));
}

#[test]
fn read_input_rejects_malformed_tokens() {
    let game = Game::new();
    assert_eq!(game.read_input(""), None);
    assert_eq!(game.read_input("a"), None);
    assert_eq!(game.read_input("d1"), None);
    assert_eq!(game.read_input("a4"), None);
    assert_eq!(game.read_input("1a"), None);
    assert_eq!(game.read_input("zz"), None);
    assert_eq!(game.read_input("\n"), None);
}

#[test]
fn moves_alternate_between_the_players() {
    let mut game = Game::new();
    assert!(game.x_to_move);
    assert_eq!(game.play_move(0, 0), MoveOutcome::Placed);
    assert!(!game.x_to_move);
    assert_eq!(game.play_move(1, 0), MoveOutcome::Placed);
    assert!(game.x_to_move);
    assert!(game.board.x.get(0));
    assert!(game.board.o.get(1));
}

#[test]
fn occupied_cells_are_rejected() {
    let mut game = Game::new();
    assert_eq!(game.play_move(1, 1), MoveOutcome::Placed);
    // O may take neither the cell X holds nor play twice onto one
    assert_eq!(game.play_move(1, 1), MoveOutcome::Occupied);
    assert!(!game.x_to_move);
    assert_eq!(game.play_move(0, 0), MoveOutcome::Placed);
    assert_eq!(game.play_move(0, 0), MoveOutcome::Occupied);
}

#[test]
fn completing_a_line_wins_and_ends_the_turn_taking() {
    let mut game = Game::new();
    assert_eq!(game.play_move(0, 0), MoveOutcome::Placed);  // X a1
    assert_eq!(game.play_move(0, 1), MoveOutcome::Placed);  // O a2
    assert_eq!(game.play_move(1, 0), MoveOutcome::Placed);  // X b1
    assert_eq!(game.play_move(1, 1), MoveOutcome::Placed);  // O b2
    let outcome = game.play_move(2, 0);  // X c1 completes the row
    assert_eq!(outcome, MoveOutcome::Win);
    assert!(game.x_to_move, "the winner is still the nominal mover");
    assert!(game.board.x.has_won());
    assert!(!game.board.o.has_won());
}
