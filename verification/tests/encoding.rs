use tictactoe::bit_board::BitBoard;
use tictactoe::board::Board;

#[test]
fn every_index_round_trips_through_decoding() {
    for index in 0..0x40000usize {
        let board = Board::of_index(index);
        assert_eq!(board.position_index(), index);
    }
}

#[test]
fn encoding_packs_x_low_and_o_high() {
    let board = Board { x: BitBoard::new(0b000_000_101), o: BitBoard::new(0b000_000_011) };
    assert_eq!(board.position_index(), 0b101 | (0b011 << 9));
    let back = Board::of_index(0b101 | (0b011 << 9));
    assert_eq!(back.x.as_u32(), 0b101);
    assert_eq!(back.o.as_u32(), 0b011);
}

#[test]
fn side_to_move_follows_the_mark_counts() {
    assert!(Board::empty().x_to_move());
    let after_one = Board { x: BitBoard::new(0b000_010_000), o: BitBoard::new(0) };
    assert!(!after_one.x_to_move());
    let after_two = Board { x: BitBoard::new(0b000_010_000), o: BitBoard::new(0b000_000_001) };
    assert!(after_two.x_to_move());
}
