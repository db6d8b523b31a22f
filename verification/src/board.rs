//! A position: one field of marks per player, and its raw encoding.
//!
//! A position is encoded as an 18-bit index, X's bits in the low nine
//! bits and O's bits in the next nine. The encoding is a bijection, so a
//! dense table indexed by it needs no hashing and admits no collisions.
//! The side to move is not stored: X moves first, so X is to move exactly
//! when the two mark counts are equal.

use vstd::prelude::*;
use crate::bit_board::BitBoard;
use crate::bit_board::FULL_MASK;
use crate::bit_board::popcount9;

verus! {

/// A position: X's marks and O's marks.
#[derive(Clone, Copy, PartialEq, Eq, Structural, Debug)]
pub struct Board {
    pub x: BitBoard,
    pub o: BitBoard,
}

/// X is to move exactly when the two mark counts are equal.
pub open spec fn turn_is_x(x: u16, o: u16) -> bool {
    popcount9(x) == popcount9(o)
}

/// The raw encoding of a position: X's bits low, O's bits shifted up by
/// nine.
pub open spec fn spec_index_of(x: u16, o: u16) -> int {
    ((x as u32) | ((o as u32) << 9)) as int
}

/// X's bit-field of an encoded position.
pub open spec fn x_bits_of(index: int) -> u16 {
    ((index as u32) & 0x1FF) as u16
}

/// O's bit-field of an encoded position.
pub open spec fn o_bits_of(index: int) -> u16 {
    (((index as u32) >> 9) & 0x1FF) as u16
}

/// Encoding two nine-bit fields stays below the table size and decodes
/// back to the same fields.
pub proof fn lemma_encode_decode(x: u16, o: u16)
    by (bit_vector)
    requires
        x <= 0x1FF,
        o <= 0x1FF,
    ensures
        0 <= spec_index_of(x, o) < 0x40000,
        x_bits_of(spec_index_of(x, o)) == x,
        o_bits_of(spec_index_of(x, o)) == o,
{
}

/// The encoding is injective on nine-bit fields.
pub proof fn lemma_encode_injective(x: u16, o: u16, x2: u16, o2: u16)
    by (bit_vector)
    requires
        x <= 0x1FF,
        o <= 0x1FF,
        x2 <= 0x1FF,
        o2 <= 0x1FF,
        spec_index_of(x, o) == spec_index_of(x2, o2),
    ensures
        x == x2,
        o == o2,
{
}

/// Law: decoding a table index into the two bit-fields and re-encoding
/// them reproduces the index, for every index of the table.
pub proof fn lemma_index_round_trip(index: int)
    requires
        0 <= index < 0x40000,
    ensures
        spec_index_of(x_bits_of(index), o_bits_of(index)) == index,
        x_bits_of(index) <= 0x1FF,
        o_bits_of(index) <= 0x1FF,
{
    let v = index as u32;
    let xb = x_bits_of(index);
    let ob = o_bits_of(index);
    assert(((xb as u32) | ((ob as u32) << 9)) == v && xb <= 0x1FF && ob <= 0x1FF) by (bit_vector)
        requires
            xb == (v & 0x1FF) as u16,
            ob == ((v >> 9) & 0x1FF) as u16,
            v < 0x40000,
    ;
}

impl Board {
    /// Both fields are nine-bit and no cell carries both marks.
    pub open spec fn wf(self) -> bool {
        &&& self.x.wf()
        &&& self.o.wf()
        &&& self.x.0 & self.o.0 == 0
    }

    /// The starting position: no marks at all.
    pub fn empty() -> (b: Board)
        ensures
            b.x.0 == 0,
            b.o.0 == 0,
            b.wf(),
    {
        let b = Board { x: BitBoard::new(0), o: BitBoard::new(0) };
        proof {
            assert(0u16 & 0u16 == 0) by (bit_vector);
        }
        b
    }

    /// The raw table index of this position.
    pub fn position_index(&self) -> (index: usize)
        requires
            self.x.wf(),
            self.o.wf(),
        ensures
            index == spec_index_of(self.x.0, self.o.0),
            index < 0x40000,
    {
        proof {
            lemma_encode_decode(self.x.0, self.o.0);
        }
        (self.x.as_u32() | (self.o.as_u32() << 9)) as usize
    }

    /// The position a raw table index encodes.
    pub fn of_index(index: usize) -> (b: Board)
        requires
            index < 0x40000,
        ensures
            b.x.0 == x_bits_of(index as int),
            b.o.0 == o_bits_of(index as int),
            b.x.wf(),
            b.o.wf(),
    {
        let v = index as u32;
        proof {
            assert((v & 0x1FF) <= 0x1FF && ((v >> 9) & 0x1FF) <= 0x1FF) by (bit_vector);
        }
        Board { x: BitBoard::new((v & 0x1FF) as u16), o: BitBoard::new(((v >> 9) & 0x1FF) as u16) }
    }

    /// Derives the side to move from the mark counts: X is to move
    /// exactly when they are equal, since X moves first.
    pub fn x_to_move(&self) -> (r: bool)
        requires
            self.x.wf(),
            self.o.wf(),
        ensures
            r == turn_is_x(self.x.0, self.o.0),
    {
        self.o.count() == self.x.count()
    }
}

} // verus!
