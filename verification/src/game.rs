//! One interactive game: parsing a move token and applying a move.
//!
//! The terminal loop itself (prompting, printing the board) lives
//! outside the library; it hands each input line to [`Game::read_input`]
//! and each accepted move to [`Game::play_move`], and stops when a move
//! wins the game.

use vstd::prelude::*;
use crate::bit_board::cell;
use crate::bit_board::is_win;
use crate::bit_board::BitBoard;
use crate::board::Board;

verus! {

/// What applying a move yielded.
#[derive(Clone, Copy, PartialEq, Eq, Structural, Debug)]
pub enum MoveOutcome {
    /// The chosen cell already carries a mark; nothing changed.
    Occupied,
    /// The move was made and completed a winning line for the mover.
    Win,
    /// The move was made and the turn passed to the other player.
    Placed,
}

/// The column a token letter names.
pub open spec fn column_of(c: char) -> Option<u8> {
    if c == 'a' {
        Some(0u8)
    } else if c == 'b' {
        Some(1u8)
    } else if c == 'c' {
        Some(2u8)
    } else {
        None
    }
}

/// The row a token digit names.
pub open spec fn row_of(c: char) -> Option<u8> {
    if c == '1' {
        Some(0u8)
    } else if c == '2' {
        Some(1u8)
    } else if c == '3' {
        Some(2u8)
    } else {
        None
    }
}

/// The move an input line names: its first character the column, its
/// second the row; any other line names none.
pub open spec fn spec_parse_move(s: Seq<char>) -> Option<(u8, u8)> {
    if s.len() < 2 {
        None
    } else {
        match (column_of(s[0]), row_of(s[1])) {
            (Some(column), Some(row)) => Some((column, row)),
            _ => None,
        }
    }
}

/// One game in progress: the position and whose turn it is.
pub struct Game {
    pub board: Board,
    pub x_to_move: bool,
}

impl Game {
    /// The field of the player whose turn it is.
    pub open spec fn mover_bits(self) -> u16 {
        if self.x_to_move {
            self.board.x.0
        } else {
            self.board.o.0
        }
    }

    /// A fresh game: an empty board, X to move.
    pub fn new() -> (game: Game)
        ensures
            game.board.x.0 == 0,
            game.board.o.0 == 0,
            game.board.wf(),
            game.x_to_move,
    {
        Game { board: Board::empty(), x_to_move: true }
    }

    /// Reads a move from one input line: a column letter `a` to `c`,
    /// then a row digit `1` to `3`. Any other line is rejected, and the
    /// caller prompts again.
    pub fn read_input(&self, input: &str) -> (r: Option<(u8, u8)>)
        ensures
            r == spec_parse_move(input@),
            r is Some ==> (r->0).0 < 3 && (r->0).1 < 3,
    {
        let n = input.unicode_len();
        if n < 2 {
            return None;
        }
        let first = input.get_char(0);
        let column: u8 = match first {
            'a' => 0,
            'b' => 1,
            'c' => 2,
            _ => { return None },
        };
        let second = input.get_char(1);
        let row: u8 = match second {
            '1' => 0,
            '2' => 1,
            '3' => 2,
            _ => { return None },
        };
        Some((column, row))
    }

    /// Applies the move at the given column and row: rejected when the
    /// cell carries any mark; otherwise the mover's mark is placed, and
    /// the move either wins the game or passes the turn.
    pub fn play_move(&mut self, column: u8, row: u8) -> (r: MoveOutcome)
        requires
            old(self).board.wf(),
            column < 3,
            row < 3,
        ensures
            final(self).board.wf(),
            ({
                let idx = (row * 3 + column) as u16;
                let mark = 1u16 << idx;
                match r {
                    MoveOutcome::Occupied => *final(self) == *old(self) && cell(
                        old(self).board.x.0 | old(self).board.o.0,
                        idx,
                    ),
                    MoveOutcome::Win => {
                        &&& !cell(old(self).board.x.0 | old(self).board.o.0, idx)
                        &&& final(self).mover_bits() == old(self).mover_bits() | mark
                        &&& is_win(final(self).mover_bits())
                        &&& final(self).x_to_move == old(self).x_to_move
                        &&& (if old(self).x_to_move {
                            final(self).board.o == old(self).board.o
                        } else {
                            final(self).board.x == old(self).board.x
                        })
                    },
                    MoveOutcome::Placed => {
                        &&& !cell(old(self).board.x.0 | old(self).board.o.0, idx)
                        &&& final(self).x_to_move == !old(self).x_to_move
                        &&& (if old(self).x_to_move {
                            final(self).board.x.0 == old(self).board.x.0 | mark
                                && final(self).board.o == old(self).board.o
                        } else {
                            final(self).board.o.0 == old(self).board.o.0 | mark
                                && final(self).board.x == old(self).board.x
                        })
                        &&& !is_win(if old(self).x_to_move {
                            final(self).board.x.0
                        } else {
                            final(self).board.o.0
                        })
                    },
                }
            }),
    {
        let index = row * 3 + column;
        proof {
            crate::bit_board::lemma_cell_or(self.board.x.0, self.board.o.0, index as u16);
        }
        let occupied = if self.x_to_move {
            self.board.x.get(index) || self.board.o.get(index)
        } else {
            self.board.o.get(index) || self.board.x.get(index)
        };
        if occupied {
            return MoveOutcome::Occupied;
        }
        proof {
            let x = self.board.x.0;
            let o = self.board.o.0;
            let i = index as u16;
            assert((x | (1u16 << i)) <= 0x1FF && (o | (1u16 << i)) <= 0x1FF && (o & (1u16 << i)
                == 0 ==> (x | (1u16 << i)) & o == 0) && (x & (1u16 << i) == 0 ==> x & (o | (1u16
                << i)) == 0)) by (bit_vector)
                requires
                    x <= 0x1FF,
                    o <= 0x1FF,
                    x & o == 0,
                    i < 9,
            ;
        }
        if self.x_to_move {
            self.board.x.set(index);
            if self.board.x.has_won() {
                return MoveOutcome::Win;
            }
        } else {
            self.board.o.set(index);
            if self.board.o.has_won() {
                return MoveOutcome::Win;
            }
        }
        self.x_to_move = !self.x_to_move;
        MoveOutcome::Placed
    }
}

} // verus!
