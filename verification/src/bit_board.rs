//! One player's marks as a nine-bit field.
//!
//! Bit `i` (0 to 8) records whether cell `i` carries this player's mark;
//! cells are numbered row-major, so cell `row * 3 + column`. The eight
//! winning lines and the full board are fixed masks over those bits.

use vstd::prelude::*;

verus! {

/// Mask with all nine cell bits set.
pub const FULL_MASK: u16 = 0x1FF;

/// Winning line: the row of cells 0, 1, 2.
pub const BOTTOM_ROW: u16 = 0b000_000_111;

/// Winning line: the row of cells 3, 4, 5.
pub const MIDDLE_ROW: u16 = 0b000_111_000;

/// Winning line: the row of cells 6, 7, 8.
pub const TOP_ROW: u16 = 0b111_000_000;

/// Winning line: the column of cells 2, 5, 8.
pub const LEFT_COLUMN: u16 = 0b100_100_100;

/// Winning line: the column of cells 1, 4, 7.
pub const MIDDLE_COLUMN: u16 = 0b010_010_010;

/// Winning line: the column of cells 0, 3, 6.
pub const RIGHT_COLUMN: u16 = 0b001_001_001;

/// Winning line: the diagonal of cells 2, 4, 6.
pub const TOP_RIGHT_DIAGONAL: u16 = 0b001_010_100;

/// Winning line: the diagonal of cells 0, 4, 8.
pub const TOP_LEFT_DIAGONAL: u16 = 0b100_010_001;

/// Cell `i` is marked in the field `b`.
pub open spec fn cell(b: u16, i: u16) -> bool {
    b & (1u16 << i) != 0
}

/// Number of marked cells with index below `n`.
pub open spec fn count_below(b: u16, n: int) -> nat
    decreases n,
{
    if n <= 0 {
        0
    } else {
        count_below(b, n - 1) + if cell(b, (n - 1) as u16) {
            1nat
        } else {
            0nat
        }
    }
}

/// Number of marked cells of a nine-bit field.
pub open spec fn popcount9(b: u16) -> nat {
    count_below(b, 9)
}

/// Number of unmarked cells with index below `n`.
pub open spec fn free_below(b: u16, n: int) -> nat
    decreases n,
{
    if n <= 0 {
        0
    } else {
        free_below(b, n - 1) + if cell(b, (n - 1) as u16) {
            0nat
        } else {
            1nat
        }
    }
}

/// Number of unmarked cells of a nine-bit field.
pub open spec fn free9(b: u16) -> nat {
    free_below(b, 9)
}

/// Every bit set in `line` is also set in `b`.
pub open spec fn covers(b: u16, line: u16) -> bool {
    b & line == line
}

/// The field contains a complete winning line: one of the three rows,
/// three columns or two diagonals.
pub open spec fn is_win(b: u16) -> bool {
    ||| covers(b, BOTTOM_ROW)
    ||| covers(b, MIDDLE_ROW)
    ||| covers(b, TOP_ROW)
    ||| covers(b, LEFT_COLUMN)
    ||| covers(b, MIDDLE_COLUMN)
    ||| covers(b, RIGHT_COLUMN)
    ||| covers(b, TOP_LEFT_DIAGONAL)
    ||| covers(b, TOP_RIGHT_DIAGONAL)
}

/// Mask of the bits below index `i`.
pub open spec fn low_mask(i: u16) -> u16 {
    ((1u16 << i) - 1) as u16
}

/// Testing a cell is testing the shifted low bit.
pub(crate) proof fn lemma_cell_shift(b: u16, i: u16)
    by (bit_vector)
    requires
        i < 16,
    ensures
        cell(b, i) <==> ((b >> i) & 1) == 1,
{
}

/// Marking cell `i` changes no other cell.
pub(crate) proof fn lemma_cell_set(b: u16, i: u16, j: u16)
    by (bit_vector)
    requires
        i < 16,
        j < 16,
    ensures
        cell(b | (1u16 << i), j) <==> (j == i || cell(b, j)),
{
}

/// A cell of a combined field is marked in one of its parts.
pub(crate) proof fn lemma_cell_or(a: u16, b: u16, j: u16)
    by (bit_vector)
    requires
        j < 16,
    ensures
        cell(a | b, j) <==> (cell(a, j) || cell(b, j)),
{
}

/// Marking a free cell raises the count below `n` exactly when the cell
/// lies below `n`.
pub(crate) proof fn lemma_count_below_set(b: u16, i: u16, n: int)
    requires
        i < 16,
        !cell(b, i),
        n <= 16,
    ensures
        count_below(b | (1u16 << i), n) == count_below(b, n) + if i < n {
            1int
        } else {
            0int
        },
    decreases n,
{
    if n > 0 {
        lemma_count_below_set(b, i, n - 1);
        lemma_cell_set(b, i, (n - 1) as u16);
    }
}

/// Marking a free cell lowers the free count below `n` exactly when the
/// cell lies below `n`.
pub(crate) proof fn lemma_free_below_set(b: u16, i: u16, n: int)
    requires
        i < 16,
        !cell(b, i),
        n <= 16,
    ensures
        free_below(b, n) == free_below(b | (1u16 << i), n) + if i < n {
            1int
        } else {
            0int
        },
    decreases n,
{
    if n > 0 {
        lemma_free_below_set(b, i, n - 1);
        lemma_cell_set(b, i, (n - 1) as u16);
    }
}

/// A field with a free cell below `n` has a positive free count, and one
/// with none has free count zero.
pub(crate) proof fn lemma_free_below_positive(b: u16, n: int)
    requires
        n <= 16,
    ensures
        free_below(b, n) > 0 <==> exists|i: u16| i < n && !cell(b, i),
    decreases n,
{
    if n > 0 {
        lemma_free_below_positive(b, n - 1);
        if free_below(b, n) > 0 {
            if !cell(b, (n - 1) as u16) {
                assert(((n - 1) as u16) < n && !cell(b, (n - 1) as u16));
            } else {
                let i = choose|i: u16| i < n - 1 && !cell(b, i);
                assert(i < n && !cell(b, i));
            }
        }
        if exists|i: u16| i < n && !cell(b, i) {
            let i = choose|i: u16| i < n && !cell(b, i);
            if i < n - 1 {
                assert(free_below(b, n - 1) > 0);
            }
        }
    }
}

/// The field after a quarter turn of the board: the mark of cell
/// `(row, column)` moves to cell `(column, 2 - row)`.
pub open spec fn rotate(b: u16) -> u16 {
    (((b >> 0) & 1) << 2) | (((b >> 1) & 1) << 5) | (((b >> 2) & 1) << 8) | (((b >> 3) & 1) << 1)
        | (((b >> 4) & 1) << 4) | (((b >> 5) & 1) << 7) | (((b >> 6) & 1) << 0) | (((b >> 7) & 1)
        << 3) | (((b >> 8) & 1) << 6)
}

/// The cell a quarter turn moves into cell `j`.
pub open spec fn rotate_source(j: u16) -> u16 {
    if j == 0 {
        6
    } else if j == 1 {
        3
    } else if j == 2 {
        0
    } else if j == 3 {
        7
    } else if j == 4 {
        4
    } else if j == 5 {
        1
    } else if j == 6 {
        8
    } else if j == 7 {
        5
    } else {
        2
    }
}

/// The cell a quarter turn moves cell `i` into.
pub open spec fn rotate_dest(i: u16) -> u16 {
    if i == 0 {
        2
    } else if i == 1 {
        5
    } else if i == 2 {
        8
    } else if i == 3 {
        1
    } else if i == 4 {
        4
    } else if i == 5 {
        7
    } else if i == 6 {
        0
    } else if i == 7 {
        3
    } else {
        6
    }
}

/// A quarter turn carries each winning line onto a winning line,
/// distributes over combining two fields, and stays nine-bit.
pub(crate) proof fn lemma_rotate_board(x: u16, o: u16)
    by (bit_vector)
    ensures
        is_win(rotate(x)) == is_win(x),
        rotate(x) | rotate(o) == rotate(x | o),
        rotate(x) <= 0x1FF,
{
}

/// A quarter turn keeps the mark count and the free count: it only
/// permutes the cells.
pub(crate) proof fn lemma_rotate_counts(b: u16)
    ensures
        popcount9(rotate(b)) == popcount9(b),
        free9(rotate(b)) == free9(b),
{
    reveal_with_fuel(count_below, 11);
    reveal_with_fuel(free_below, 11);
    assert forall|j: u16| j < 9 implies cell(rotate(b), j) == cell(b, rotate_source(j)) by {
        lemma_rotate_cell(b, j);
    }
}

/// A quarter turn moves the mark of the source cell into cell `j`, and
/// marking a free source cell marks exactly cell `j` of the turned
/// field.
pub(crate) proof fn lemma_rotate_cell(b: u16, j: u16)
    by (bit_vector)
    requires
        j < 9,
    ensures
        cell(rotate(b), j) == cell(b, rotate_source(j)),
        rotate(b) | (1u16 << j) == rotate(b | (1u16 << rotate_source(j))),
{
}

/// The field after mirroring the board left to right: the mark of
/// cell `(row, column)` moves to cell `(row, 2 - column)`. The map is
/// its own inverse.
pub open spec fn mirror(b: u16) -> u16 {
    (((b >> 0) & 1) << 2) | (((b >> 1) & 1) << 1) | (((b >> 2) & 1) << 0) | (((b >> 3) & 1) << 5)
        | (((b >> 4) & 1) << 4) | (((b >> 5) & 1) << 3) | (((b >> 6) & 1) << 8) | (((b >> 7) & 1)
        << 7) | (((b >> 8) & 1) << 6)
}

/// The cell the mirror swaps with cell `j`: the other end of its row.
pub open spec fn mirror_cell(j: u16) -> u16 {
    if j == 0 {
        2
    } else if j == 1 {
        1
    } else if j == 2 {
        0
    } else if j == 3 {
        5
    } else if j == 4 {
        4
    } else if j == 5 {
        3
    } else if j == 6 {
        8
    } else if j == 7 {
        7
    } else {
        6
    }
}

/// The mirror carries each winning line onto a winning line,
/// distributes over combining two fields, and stays nine-bit.
pub(crate) proof fn lemma_mirror_board(x: u16, o: u16)
    by (bit_vector)
    ensures
        is_win(mirror(x)) == is_win(x),
        mirror(x) | mirror(o) == mirror(x | o),
        mirror(x) <= 0x1FF,
{
}

/// The mirror keeps the mark count and the free count: it only
/// permutes the cells.
pub(crate) proof fn lemma_mirror_counts(b: u16)
    ensures
        popcount9(mirror(b)) == popcount9(b),
        free9(mirror(b)) == free9(b),
{
    reveal_with_fuel(count_below, 11);
    reveal_with_fuel(free_below, 11);
    assert forall|j: u16| j < 9 implies cell(mirror(b), j) == cell(b, mirror_cell(j)) by {
        lemma_mirror_cell(b, j);
    }
}

/// The mirror moves the mark of the swapped cell into cell `j`, and
/// marking a free swapped cell marks exactly cell `j` of the mirrored
/// field.
pub(crate) proof fn lemma_mirror_cell(b: u16, j: u16)
    by (bit_vector)
    requires
        j < 9,
    ensures
        cell(mirror(b), j) == cell(b, mirror_cell(j)),
        mirror(b) | (1u16 << j) == mirror(b | (1u16 << mirror_cell(j))),
{
}

/// One player's marks: bit `i` (0 to 8) is cell `i`, row-major.
#[derive(Clone, Copy, PartialEq, Eq, Structural, Debug)]
pub struct BitBoard(pub u16);

impl BitBoard {
    /// Only the nine cell bits may be set.
    pub open spec fn wf(self) -> bool {
        self.0 <= FULL_MASK
    }

    /// A field with exactly the given marks.
    pub fn new(bits: u16) -> (b: Self)
        requires
            bits <= FULL_MASK,
        ensures
            b.0 == bits,
    {
        BitBoard(bits)
    }

    /// The raw bits, widened.
    pub fn as_u32(&self) -> (r: u32)
        ensures
            r == self.0 as u32,
    {
        self.0 as u32
    }

    /// The raw bits, as an index.
    pub fn as_usize(&self) -> (r: usize)
        ensures
            r == self.0 as usize,
    {
        self.0 as usize
    }

    /// Marks cell `index`. The caller guarantees the cell is free; the
    /// engine enforces this through its emptiness check before moving.
    pub fn set(&mut self, index: u8)
        requires
            index < 9,
            !cell(old(self).0, index as u16),
        ensures
            final(self).0 == old(self).0 | (1u16 << (index as u16)),
    {
        proof {
            let b = self.0;
            assert(b | (1u16 << index) == b | (1u16 << (index as u16))) by (bit_vector)
                requires index < 9;
        }
        self.0 = self.0 | (1u16 << index);
    }

    /// Whether cell `index` is marked.
    pub fn get(&self, index: u8) -> (r: bool)
        requires
            index < 9,
        ensures
            r == cell(self.0, index as u16),
    {
        let r = (self.0 & (1u16 << index)) != 0;
        proof {
            let b = self.0;
            assert(((b & (1u16 << index)) != 0) == (b & (1u16 << (index as u16)) != 0))
                by (bit_vector)
                requires index < 9;
        }
        r
    }

    /// Whether every cell marked in `bit_board` is also marked here;
    /// used to test for a complete winning line.
    pub fn contains(&self, bit_board: &Self) -> (r: bool)
        ensures
            r == covers(self.0, bit_board.0),
    {
        (self.0 & bit_board.0) == bit_board.0
    }

    /// Number of marked cells.
    pub fn count(&self) -> (r: u32)
        requires
            self.wf(),
        ensures
            r == popcount9(self.0),
    {
        let mut r: u32 = 0;
        let mut i: u16 = 0;
        while i < 9
            invariant
                i <= 9,
                r <= i,
                r == count_below(self.0, i as int),
            decreases 9 - i,
        {
            proof {
                lemma_cell_shift(self.0, i);
            }
            if (self.0 >> i) & 1 == 1 {
                r = r + 1;
            }
            i = i + 1;
        }
        r
    }

    /// Index of the lowest marked cell; the field must not be empty.
    pub fn first(&self) -> (r: u32)
        requires
            self.wf(),
            self.0 != 0,
        ensures
            r < 9,
            cell(self.0, r as u16),
            forall|j: u16| j < r ==> !cell(self.0, j),
            self.0 & low_mask(r as u16) == 0,
    {
        let mut i: u16 = 0;
        proof {
            let b = self.0;
            assert(b & low_mask(0) == 0) by (bit_vector);
        }
        loop
            invariant
                self.wf(),
                self.0 != 0,
                i <= 9,
                forall|j: u16| j < i ==> !cell(self.0, j),
                self.0 & low_mask(i) == 0,
            decreases 9 - i,
        {
            proof {
                lemma_cell_shift(self.0, i);
                if i >= 9 {
                    // all nine cells clear yet the field is nonempty: impossible
                    let b = self.0;
                    assert(false) by (bit_vector)
                        requires
                            b != 0,
                            b <= 0x1FF,
                            b & low_mask(9) == 0,
                    ;
                }
            }
            if (self.0 >> i) & 1 == 1 {
                return i as u32;
            }
            proof {
                let b = self.0;
                assert((b & low_mask(i) == 0 && !cell(b, i)) ==> (b & low_mask(
                    (i + 1) as u16,
                ) == 0)) by (bit_vector)
                    requires i < 9;
            }
            i = i + 1;
        }
    }

    /// Index of the lowest marked cell, which is also cleared; used to
    /// enumerate cells one at a time without an explicit index loop.
    pub fn pop(&mut self) -> (r: u32)
        requires
            old(self).wf(),
            old(self).0 != 0,
        ensures
            r < 9,
            cell(old(self).0, r as u16),
            forall|j: u16| j < r ==> !cell(old(self).0, j),
            old(self).0 & low_mask(r as u16) == 0,
            final(self).0 == old(self).0 & !(1u16 << (r as u16)),
            final(self).0 < old(self).0,
            final(self).wf(),
    {
        let index = self.first();
        proof {
            let k = index as u16;
            let b = self.0;
            assert(((b >> k) & 1 == 1 && b & low_mask(k) == 0 && k < 9) ==> (b
                & ((b - 1) as u16) == b & !(1u16 << k) && b & !(1u16 << k) < b))
                by (bit_vector);
            lemma_cell_shift(b, k);
        }
        self.0 = self.0 & (self.0 - 1);
        index
    }

    /// Whether the field has completed one of the eight winning lines.
    pub fn has_won(&self) -> (r: bool)
        ensures
            r == is_win(self.0),
    {
        self.contains(&BitBoard(BOTTOM_ROW)) || self.contains(&BitBoard(MIDDLE_ROW))
            || self.contains(&BitBoard(TOP_ROW)) || self.contains(&BitBoard(LEFT_COLUMN))
            || self.contains(&BitBoard(MIDDLE_COLUMN)) || self.contains(&BitBoard(RIGHT_COLUMN))
            || self.contains(&BitBoard(TOP_LEFT_DIAGONAL)) || self.contains(
            &BitBoard(TOP_RIGHT_DIAGONAL),
        )
    }
}

} // verus!
