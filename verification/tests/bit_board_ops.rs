use tictactoe::bit_board::BitBoard;
use tictactoe::bit_board::{
    BOTTOM_ROW, FULL_MASK, LEFT_COLUMN, MIDDLE_COLUMN, MIDDLE_ROW, RIGHT_COLUMN, TOP_LEFT_DIAGONAL,
    TOP_RIGHT_DIAGONAL, TOP_ROW,
};

#[test]
fn new_and_raw_views() {
    let b = BitBoard::new(0b101_010_001);
    assert_eq!(b.as_u32(), 0b101_010_001u32);
    assert_eq!(b.as_usize(), 0b101_010_001usize);
    assert_eq!(BitBoard::new(0).as_u32(), 0);
    assert_eq!(BitBoard::new(FULL_MASK).as_usize(), 0x1FF);
}

#[test]
fn set_and_get() {
    let mut b = BitBoard::new(0);
    assert!(!b.get(4));
    b.set(4);
    assert!(b.get(4));
    assert!(!b.get(3));
    assert!(!b.get(5));
    b.set(0);
    b.set(8);
    assert!(b.get(0));
    assert!(b.get(8));
    assert_eq!(b.as_u32(), 0b100010001);
}

#[test]
fn contains_subsets() {
    let b = BitBoard::new(0b111_000_111);
    assert!(b.contains(&BitBoard::new(0b000_000_111)));
    assert!(b.contains(&BitBoard::new(0b111_000_000)));
    assert!(b.contains(&BitBoard::new(0b101_000_100)));
    assert!(b.contains(&BitBoard::new(0)));
    assert!(!b.contains(&BitBoard::new(0b000_010_000)));
    assert!(!b.contains(&BitBoard::new(0b111_111_111)));
}

#[test]
fn count_marks() {
    assert_eq!(BitBoard::new(0).count(), 0);
    assert_eq!(BitBoard::new(FULL_MASK).count(), 9);
    assert_eq!(BitBoard::new(0b101_010_001).count(), 4);
    assert_eq!(BitBoard::new(TOP_ROW).count(), 3);
}

#[test]
fn first_is_lowest() {
    assert_eq!(BitBoard::new(0b000_000_001).first(), 0);
    assert_eq!(BitBoard::new(0b100_000_000).first(), 8);
    assert_eq!(BitBoard::new(0b100_010_100).first(), 2);
}

#[test]
fn pop_enumerates_lowest_first() {
    let mut b = BitBoard::new(0b100_010_100);
    assert_eq!(b.pop(), 2);
    assert_eq!(b.pop(), 4);
    assert_eq!(b.pop(), 8);
    assert_eq!(b.as_u32(), 0);
}

#[test]
fn has_won_on_each_line() {
    for line in [
        BOTTOM_ROW,
        MIDDLE_ROW,
        TOP_ROW,
        LEFT_COLUMN,
        MIDDLE_COLUMN,
        RIGHT_COLUMN,
        TOP_LEFT_DIAGONAL,
        TOP_RIGHT_DIAGONAL,
    ] {
        assert!(BitBoard::new(line).has_won());
    }
}

#[test]
fn has_won_needs_a_full_line() {
    assert!(!BitBoard::new(0).has_won());
    assert!(!BitBoard::new(0b000_000_011).has_won());
    // four marks, no line
    assert!(!BitBoard::new(0b000_011_011).has_won());
    // a line plus extra marks still wins
    assert!(BitBoard::new(TOP_ROW | 0b000_000_010).has_won());
}
