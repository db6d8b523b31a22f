//! The exhaustive solver: negamax search with a transposition table.
//!
//! `game_value` is the mathematical score of a position for its side to
//! move: the losing value when the opponent has completed a line, the
//! drawing value on a full board, and otherwise the maximum over every
//! free cell of the negated score of the resulting position. The side to
//! move is derived from the mark counts (X moves first). [`Engine::search`]
//! computes this value for every position it visits and records it in a
//! dense table indexed by the raw board encoding, so a position reached
//! through several move orders is scored once.

use vstd::prelude::*;
use crate::bit_board::BitBoard;
use crate::bit_board::FULL_MASK;
use crate::bit_board::cell;
use crate::bit_board::free9;
use crate::bit_board::is_win;
use crate::bit_board::popcount9;
use crate::bit_board::mirror;
use crate::bit_board::rotate;
use crate::board::Board;
use crate::board::spec_index_of;
use crate::board::turn_is_x;

verus! {

/// Sentinel for a table slot not yet computed; outside the score range,
/// and not the negation of any legal score.
pub const UNKNOWN_SCORE: i8 = -127;

/// Score of a position its side to move wins with perfect play.
pub const WINNING_SCORE: i8 = 10;

/// Score of a position its side to move loses with perfect play.
pub const LOSING_SCORE: i8 = -10;

/// Score of a position neither side can win with perfect play.
pub const DRAWING_SCORE: i8 = 0;

/// Number of table slots: one per raw 18-bit position encoding,
/// so two to the eighteenth.
pub const LOOKUP_SIZE: usize = 0x40000;

/// An exact evaluation relative to the side to move: positive wins,
/// zero draws, negative loses; the sentinel marks an empty table slot.
#[derive(Clone, Copy, PartialEq, Eq, Structural, Debug)]
pub struct Score(pub i8);

/// X's field after the side to move marks cell `i`.
pub open spec fn child_x(x: u16, o: u16, i: u16) -> u16 {
    if turn_is_x(x, o) {
        x | (1u16 << i)
    } else {
        x
    }
}

/// O's field after the side to move marks cell `i`.
pub open spec fn child_o(x: u16, o: u16, i: u16) -> u16 {
    if turn_is_x(x, o) {
        o
    } else {
        o | (1u16 << i)
    }
}

/// The mark counts a position reached by alternate play shows: X has
/// either as many marks as O or exactly one more.
pub open spec fn balanced(x: u16, o: u16) -> bool {
    popcount9(x) == popcount9(o) || popcount9(x) == popcount9(o) + 1
}

/// The score of a position for its side to move, with explicit fuel;
/// the fuel equals the number of free cells whenever the function is
/// applied, so running out of fuel means the board is full.
pub open spec fn game_value_fuel(x: u16, o: u16, fuel: nat) -> int
    decreases fuel, 0int, 0int,
{
    let enemy = if turn_is_x(x, o) {
        o
    } else {
        x
    };
    if is_win(enemy) {
        LOSING_SCORE as int
    } else if fuel == 0 {
        DRAWING_SCORE as int
    } else {
        let best = best_below(x, o, 9, (fuel - 1) as nat);
        if best == UNKNOWN_SCORE as int {
            DRAWING_SCORE as int
        } else {
            best
        }
    }
}

/// The best negated child score over the free cells with index below
/// `n`, or the sentinel when no such cell exists; `fuel` is the fuel
/// left for the children.
pub open spec fn best_below(x: u16, o: u16, n: int, fuel: nat) -> int
    decreases fuel, 1int, n,
{
    if n <= 0 {
        UNKNOWN_SCORE as int
    } else {
        let i = (n - 1) as u16;
        let prev = best_below(x, o, n - 1, fuel);
        if cell(x | o, i) {
            prev
        } else {
            let s = -game_value_fuel(child_x(x, o, i), child_o(x, o, i), fuel);
            if s > prev {
                s
            } else {
                prev
            }
        }
    }
}

/// The exact score of a position for its side to move.
pub open spec fn game_value(x: u16, o: u16) -> int {
    game_value_fuel(x, o, free9(x | o))
}

/// The position `(x2, o2)` lies in the game tree rooted at `(x, o)`:
/// it is the root itself, or reachable by legal moves before the game
/// ends.
pub open spec fn in_subtree_fuel(x: u16, o: u16, x2: u16, o2: u16, fuel: nat) -> bool
    decreases fuel, 0int,
{
    ||| (x2 == x && o2 == o)
    ||| {
        let enemy = if turn_is_x(x, o) {
            o
        } else {
            x
        };
        fuel > 0 && !is_win(enemy) && in_child_subtree_below(x, o, 9, x2, o2, (fuel - 1) as nat)
    }
}

/// The position `(x2, o2)` lies in the subtree of a child reached by
/// marking a free cell with index below `n`.
pub open spec fn in_child_subtree_below(x: u16, o: u16, n: int, x2: u16, o2: u16, fuel: nat) -> bool
    decreases fuel, 1int,
{
    exists|i: u16|
        i < n && !cell(x | o, i) && in_subtree_fuel(
            child_x(x, o, i),
            child_o(x, o, i),
            x2,
            o2,
            fuel,
        )
}

/// The game tree rooted at a position, with the fuel it is always used
/// at: the number of free cells.
pub open spec fn in_subtree(x: u16, o: u16, x2: u16, o2: u16) -> bool {
    in_subtree_fuel(x, o, x2, o2, free9(x | o))
}

/// Bit-level facts about the position after the side to move marks the
/// free cell `i`.
pub(crate) proof fn lemma_child_bits(x: u16, o: u16, i: u16)
    requires
        x <= FULL_MASK,
        o <= FULL_MASK,
        x & o == 0,
        i < 9,
        !cell(x | o, i),
    ensures
        child_x(x, o, i) | child_o(x, o, i) == (x | o) | (1u16 << i),
        child_x(x, o, i) & child_o(x, o, i) == 0,
        child_x(x, o, i) <= FULL_MASK,
        child_o(x, o, i) <= FULL_MASK,
        free9(x | o) == free9(child_x(x, o, i) | child_o(x, o, i)) + 1,
        turn_is_x(x, o) ==> popcount9(child_x(x, o, i)) == popcount9(x) + 1 && child_o(x, o, i)
            == o,
        !turn_is_x(x, o) ==> popcount9(child_o(x, o, i)) == popcount9(o) + 1 && child_x(x, o, i)
            == x,
{
    crate::bit_board::lemma_cell_or(x, o, i);
    let xo = x | o;
    crate::bit_board::lemma_free_below_set(xo, i, 9);
    if turn_is_x(x, o) {
        crate::bit_board::lemma_count_below_set(x, i, 9);
        assert((x | (1u16 << i)) | o == (x | o) | (1u16 << i) && ((x | (1u16 << i)) & o == 0 && (x
            | (1u16 << i)) <= 0x1FF)) by (bit_vector)
            requires
                x <= 0x1FF,
                o <= 0x1FF,
                x & o == 0,
                i < 9,
                o & (1u16 << i) == 0,
        ;
    } else {
        crate::bit_board::lemma_count_below_set(o, i, 9);
        assert(x | (o | (1u16 << i)) == (x | o) | (1u16 << i) && (x & (o | (1u16 << i)) == 0 && (o
            | (1u16 << i)) <= 0x1FF)) by (bit_vector)
            requires
                x <= 0x1FF,
                o <= 0x1FF,
                x & o == 0,
                i < 9,
                x & (1u16 << i) == 0,
        ;
    }
}

/// Marking a free cell of a position with alternate-play counts hands
/// the move to the other side, and keeps the counts alternate.
pub(crate) proof fn lemma_child_turn(x: u16, o: u16, i: u16)
    requires
        x <= FULL_MASK,
        o <= FULL_MASK,
        x & o == 0,
        i < 9,
        !cell(x | o, i),
        balanced(x, o),
        turn_is_x(x, o) || popcount9(x) == popcount9(o) + 1,
    ensures
        turn_is_x(child_x(x, o, i), child_o(x, o, i)) == !turn_is_x(x, o),
        balanced(child_x(x, o, i), child_o(x, o, i)),
{
    lemma_child_bits(x, o, i);
}

/// Every position of a game tree rooted at a nine-bit position is
/// itself nine-bit.
pub(crate) proof fn lemma_subtree_bounds(x: u16, o: u16, x2: u16, o2: u16, fuel: nat)
    requires
        x <= FULL_MASK,
        o <= FULL_MASK,
        in_subtree_fuel(x, o, x2, o2, fuel),
    ensures
        x2 <= FULL_MASK,
        o2 <= FULL_MASK,
    decreases fuel,
{
    if !(x2 == x && o2 == o) {
        let i = choose|i: u16|
            i < 9 && !cell(x | o, i) && in_subtree_fuel(
                child_x(x, o, i),
                child_o(x, o, i),
                x2,
                o2,
                (fuel - 1) as nat,
            );
        assert(child_x(x, o, i) <= FULL_MASK && child_o(x, o, i) <= FULL_MASK) by {
            assert(x | (1u16 << i) <= 0x1FF && o | (1u16 << i) <= 0x1FF) by (bit_vector)
                requires
                    x <= 0x1FF,
                    o <= 0x1FF,
                    i < 9,
            ;
        }
        lemma_subtree_bounds(child_x(x, o, i), child_o(x, o, i), x2, o2, (fuel - 1) as nat);
    }
}

/// The free-cell mask marks exactly the free cells of the board.
pub(crate) proof fn lemma_free_mask_cell(b: u16, i: u16)
    by (bit_vector)
    requires
        i < 16,
    ensures
        cell(!b & 0x1FF, i) <==> (i < 9 && !cell(b, i)),
{
}

/// Popping the lowest marked cell of the remaining-work mask: the cell
/// lies at or above the processed bound, every cell between is not
/// free, and the rest of the mask is the free cells above it.
pub(crate) proof fn lemma_mask_advance(free: u16, nv: u16, m: u16, k: u16)
    by (bit_vector)
    requires
        m <= 9,
        k < 9,
        nv == free & !crate::bit_board::low_mask(m),
        nv & crate::bit_board::low_mask(k) == 0,
        cell(nv, k),
    ensures
        m <= k,
        nv & !(1u16 << k) == free & !crate::bit_board::low_mask((k + 1) as u16),
        cell(free, k),
        forall|j: u16| m <= j < k ==> !cell(free, j),
{
}

/// Cells known occupied contribute nothing: the best over the free
/// cells below `b` equals the best below `a` when every cell between is
/// occupied.
pub(crate) proof fn lemma_best_skip(x: u16, o: u16, a: int, b: int, fuel: nat)
    requires
        0 <= a <= b <= 9,
        forall|j: u16| a <= j < b ==> cell(x | o, j),
    ensures
        best_below(x, o, b, fuel) == best_below(x, o, a, fuel),
    decreases b,
{
    if a < b {
        assert(cell(x | o, (b - 1) as u16));
        lemma_best_skip(x, o, a, b - 1, fuel);
    }
}

/// The subtree cover below `b` equals the cover below `a` when every
/// cell between is occupied.
pub(crate) proof fn lemma_child_subtree_skip(
    x: u16,
    o: u16,
    a: int,
    b: int,
    x2: u16,
    o2: u16,
    fuel: nat,
)
    requires
        0 <= a <= b,
        forall|j: u16| a <= j < b ==> cell(x | o, j),
    ensures
        in_child_subtree_below(x, o, b, x2, o2, fuel) == in_child_subtree_below(
            x,
            o,
            a,
            x2,
            o2,
            fuel,
        ),
{
    if in_child_subtree_below(x, o, b, x2, o2, fuel) {
        let i = choose|i: u16|
            i < b && !cell(x | o, i) && in_subtree_fuel(
                child_x(x, o, i),
                child_o(x, o, i),
                x2,
                o2,
                fuel,
            );
        assert(i < a);
        assert(in_child_subtree_below(x, o, a, x2, o2, fuel));
    }
    if in_child_subtree_below(x, o, a, x2, o2, fuel) {
        let i = choose|i: u16|
            i < a && !cell(x | o, i) && in_subtree_fuel(
                child_x(x, o, i),
                child_o(x, o, i),
                x2,
                o2,
                fuel,
            );
        assert(i < b && !cell(x | o, i) && in_subtree_fuel(
            child_x(x, o, i),
            child_o(x, o, i),
            x2,
            o2,
            fuel,
        ));
    }
}

/// Every score the game can take is the winning, drawing or losing
/// value.
pub(crate) proof fn lemma_value_range(x: u16, o: u16, fuel: nat)
    ensures
        game_value_fuel(x, o, fuel) == WINNING_SCORE as int || game_value_fuel(x, o, fuel)
            == DRAWING_SCORE as int || game_value_fuel(x, o, fuel) == LOSING_SCORE as int,
    decreases fuel, 0int, 0int,
{
    let enemy = if turn_is_x(x, o) {
        o
    } else {
        x
    };
    if !is_win(enemy) && fuel > 0 {
        lemma_best_range(x, o, 9, (fuel - 1) as nat);
    }
}

/// A best-so-far value is the sentinel or one of the three scores.
pub(crate) proof fn lemma_best_range(x: u16, o: u16, n: int, fuel: nat)
    ensures
        best_below(x, o, n, fuel) == UNKNOWN_SCORE as int || best_below(x, o, n, fuel)
            == WINNING_SCORE as int || best_below(x, o, n, fuel) == DRAWING_SCORE as int
            || best_below(x, o, n, fuel) == LOSING_SCORE as int,
    decreases fuel, 1int, n,
{
    if n > 0 {
        lemma_best_range(x, o, n - 1, fuel);
        let i = (n - 1) as u16;
        if !cell(x | o, i) {
            lemma_value_range(child_x(x, o, i), child_o(x, o, i), fuel);
        }
    }
}

/// The best over the free cells below `n` is at least the negated score
/// of any one of their children.
pub(crate) proof fn lemma_best_ge(x: u16, o: u16, n: int, fuel: nat, i: u16)
    requires
        i < n,
        !cell(x | o, i),
    ensures
        best_below(x, o, n, fuel) >= -game_value_fuel(child_x(x, o, i), child_o(x, o, i), fuel),
    decreases n,
{
    if i < n - 1 {
        lemma_best_ge(x, o, n - 1, fuel, i);
    }
}

/// A best value that is not the sentinel is attained by some free cell
/// below `n`.
pub(crate) proof fn lemma_best_witness(x: u16, o: u16, n: int, fuel: nat)
    requires
        best_below(x, o, n, fuel) != UNKNOWN_SCORE as int,
    ensures
        exists|i: u16|
            i < n && !cell(x | o, i) && best_below(x, o, n, fuel) == -game_value_fuel(
                child_x(x, o, i),
                child_o(x, o, i),
                fuel,
            ),
    decreases n,
{
    if n > 0 {
        let i = (n - 1) as u16;
        let prev = best_below(x, o, n - 1, fuel);
        if cell(x | o, i) {
            lemma_best_witness(x, o, n - 1, fuel);
        } else {
            let s = -game_value_fuel(child_x(x, o, i), child_o(x, o, i), fuel);
            if s > prev {
                assert(i < n && !cell(x | o, i) && best_below(x, o, n, fuel) == s);
            } else {
                lemma_value_range(child_x(x, o, i), child_o(x, o, i), fuel);
                lemma_best_witness(x, o, n - 1, fuel);
            }
        }
    }
}

/// The best value is the sentinel exactly when no cell below `n` is
/// free.
pub(crate) proof fn lemma_best_none(x: u16, o: u16, n: int, fuel: nat)
    ensures
        best_below(x, o, n, fuel) == UNKNOWN_SCORE as int <==> (forall|i: u16|
            i < n ==> cell(x | o, i)),
    decreases n,
{
    if n > 0 {
        lemma_best_none(x, o, n - 1, fuel);
        let i = (n - 1) as u16;
        if !cell(x | o, i) {
            lemma_value_range(child_x(x, o, i), child_o(x, o, i), fuel);
        }
    }
}

/// A mask with no marks at or above the processed bound has no free
/// cells there either.
pub(crate) proof fn lemma_mask_done(free: u16, m: u16)
    by (bit_vector)
    requires
        m <= 9,
        free & !crate::bit_board::low_mask(m) == 0,
    ensures
        forall|j: u16| m <= j < 16 ==> !cell(free, j),
{
}

/// Law: at any position where the game is not over and a cell is
/// free, the score is the best continuation seen from the other side:
/// it is at least the negated score of the position after any single
/// move, and equal to the negated score of the position after one of
/// them.
pub proof fn lemma_negation_symmetry(x: u16, o: u16)
    requires
        x <= FULL_MASK,
        o <= FULL_MASK,
        x & o == 0,
        !is_win(
            if turn_is_x(x, o) {
                o
            } else {
                x
            },
        ),
        free9(x | o) > 0,
    ensures
        forall|i: u16|
            i < 9 && !cell(x | o, i) ==> game_value(x, o) >= -game_value(
                child_x(x, o, i),
                child_o(x, o, i),
            ),
        exists|i: u16|
            i < 9 && !cell(x | o, i) && game_value(x, o) == -game_value(
                child_x(x, o, i),
                child_o(x, o, i),
            ),
{
    let fuel = free9(x | o);
    let cf = (fuel - 1) as nat;
    crate::bit_board::lemma_free_below_positive(x | o, 9);
    lemma_best_none(x, o, 9, cf);
    assert(game_value(x, o) == best_below(x, o, 9, cf));
    assert forall|i: u16| i < 9 && !cell(x | o, i) implies game_value(x, o) >= -game_value(
        child_x(x, o, i),
        child_o(x, o, i),
    ) by {
        lemma_best_ge(x, o, 9, cf, i);
        lemma_child_bits(x, o, i);
    }
    lemma_best_witness(x, o, 9, cf);
    let i = choose|i: u16|
        i < 9 && !cell(x | o, i) && best_below(x, o, 9, cf) == -game_value_fuel(
            child_x(x, o, i),
            child_o(x, o, i),
            cf,
        );
    lemma_child_bits(x, o, i);
    assert(i < 9 && !cell(x | o, i) && game_value(x, o) == -game_value(
        child_x(x, o, i),
        child_o(x, o, i),
    ));
}

/// A quarter turn of both fields leaves the score unchanged, at the
/// fuel both sides run with.
pub(crate) proof fn lemma_rotate_value(x: u16, o: u16, fuel: nat)
    ensures
        game_value_fuel(rotate(x), rotate(o), fuel) == game_value_fuel(x, o, fuel),
    decreases fuel,
{
    crate::bit_board::lemma_rotate_board(x, o);
    crate::bit_board::lemma_rotate_board(o, x);
    crate::bit_board::lemma_rotate_counts(x);
    crate::bit_board::lemma_rotate_counts(o);
    let rx = rotate(x);
    let ro = rotate(o);
    let enemy = if turn_is_x(x, o) {
        o
    } else {
        x
    };
    if !is_win(enemy) && fuel > 0 {
        let cf = (fuel - 1) as nat;
        let b1 = best_below(x, o, 9, cf);
        let b2 = best_below(rx, ro, 9, cf);
        assert forall|j: u16| j < 9 implies cell(rx | ro, j) == cell(
            x | o,
            crate::bit_board::rotate_source(j),
        ) by {
            crate::bit_board::lemma_rotate_cell(x | o, j);
        }
        if b1 == UNKNOWN_SCORE as int {
            lemma_best_none(x, o, 9, cf);
            assert forall|j: u16| j < 9 implies cell(rx | ro, j) by {
                assert(crate::bit_board::rotate_source(j) < 9);
            }
            lemma_best_none(rx, ro, 9, cf);
        } else {
            lemma_best_range(x, o, 9, cf);
            lemma_best_witness(x, o, 9, cf);
            let i = choose|i: u16|
                i < 9 && !cell(x | o, i) && b1 == -game_value_fuel(
                    child_x(x, o, i),
                    child_o(x, o, i),
                    cf,
                );
            let j = crate::bit_board::rotate_dest(i);
            assert(crate::bit_board::rotate_source(j) == i && j < 9);
            crate::bit_board::lemma_rotate_cell(x | o, j);
            crate::bit_board::lemma_rotate_cell(x, j);
            crate::bit_board::lemma_rotate_cell(o, j);
            assert(child_x(rx, ro, j) == rotate(child_x(x, o, i)) && child_o(rx, ro, j) == rotate(
                child_o(x, o, i),
            ));
            lemma_rotate_value(child_x(x, o, i), child_o(x, o, i), cf);
            lemma_best_ge(rx, ro, 9, cf, j);
            assert(b2 >= b1);

            lemma_best_witness(rx, ro, 9, cf);
            let j2 = choose|j2: u16|
                j2 < 9 && !cell(rx | ro, j2) && b2 == -game_value_fuel(
                    child_x(rx, ro, j2),
                    child_o(rx, ro, j2),
                    cf,
                );
            let i2 = crate::bit_board::rotate_source(j2);
            assert(i2 < 9 && !cell(x | o, i2));
            crate::bit_board::lemma_rotate_cell(x, j2);
            crate::bit_board::lemma_rotate_cell(o, j2);
            assert(child_x(rx, ro, j2) == rotate(child_x(x, o, i2)) && child_o(rx, ro, j2)
                == rotate(child_o(x, o, i2)));
            lemma_rotate_value(child_x(x, o, i2), child_o(x, o, i2), cf);
            lemma_best_ge(x, o, 9, cf, i2);
            assert(b1 >= b2);
        }
    }
}

/// Law: two positions related by a quarter turn of the board score
/// the same; turning the board cannot change who wins.
pub proof fn lemma_rotation_symmetry(x: u16, o: u16)
    ensures
        game_value(rotate(x), rotate(o)) == game_value(x, o),
{
    crate::bit_board::lemma_rotate_board(x, o);
    crate::bit_board::lemma_rotate_counts(x | o);
    lemma_rotate_value(x, o, free9(x | o));
}

/// Mirroring both fields leaves the score unchanged, at the fuel both
/// sides run with.
pub(crate) proof fn lemma_mirror_value(x: u16, o: u16, fuel: nat)
    ensures
        game_value_fuel(mirror(x), mirror(o), fuel) == game_value_fuel(x, o, fuel),
    decreases fuel,
{
    crate::bit_board::lemma_mirror_board(x, o);
    crate::bit_board::lemma_mirror_board(o, x);
    crate::bit_board::lemma_mirror_counts(x);
    crate::bit_board::lemma_mirror_counts(o);
    let rx = mirror(x);
    let ro = mirror(o);
    let enemy = if turn_is_x(x, o) {
        o
    } else {
        x
    };
    if !is_win(enemy) && fuel > 0 {
        let cf = (fuel - 1) as nat;
        let b1 = best_below(x, o, 9, cf);
        let b2 = best_below(rx, ro, 9, cf);
        assert forall|j: u16| j < 9 implies cell(rx | ro, j) == cell(
            x | o,
            crate::bit_board::mirror_cell(j),
        ) by {
            crate::bit_board::lemma_mirror_cell(x | o, j);
        }
        if b1 == UNKNOWN_SCORE as int {
            lemma_best_none(x, o, 9, cf);
            assert forall|j: u16| j < 9 implies cell(rx | ro, j) by {
                assert(crate::bit_board::mirror_cell(j) < 9);
            }
            lemma_best_none(rx, ro, 9, cf);
        } else {
            lemma_best_range(x, o, 9, cf);
            lemma_best_witness(x, o, 9, cf);
            let i = choose|i: u16|
                i < 9 && !cell(x | o, i) && b1 == -game_value_fuel(
                    child_x(x, o, i),
                    child_o(x, o, i),
                    cf,
                );
            let j = crate::bit_board::mirror_cell(i);
            assert(crate::bit_board::mirror_cell(j) == i && j < 9);
            crate::bit_board::lemma_mirror_cell(x | o, j);
            crate::bit_board::lemma_mirror_cell(x, j);
            crate::bit_board::lemma_mirror_cell(o, j);
            assert(child_x(rx, ro, j) == mirror(child_x(x, o, i)) && child_o(rx, ro, j) == mirror(
                child_o(x, o, i),
            ));
            lemma_mirror_value(child_x(x, o, i), child_o(x, o, i), cf);
            lemma_best_ge(rx, ro, 9, cf, j);
            assert(b2 >= b1);

            lemma_best_witness(rx, ro, 9, cf);
            let j2 = choose|j2: u16|
                j2 < 9 && !cell(rx | ro, j2) && b2 == -game_value_fuel(
                    child_x(rx, ro, j2),
                    child_o(rx, ro, j2),
                    cf,
                );
            let i2 = crate::bit_board::mirror_cell(j2);
            assert(i2 < 9 && !cell(x | o, i2));
            crate::bit_board::lemma_mirror_cell(x, j2);
            crate::bit_board::lemma_mirror_cell(o, j2);
            assert(child_x(rx, ro, j2) == mirror(child_x(x, o, i2)) && child_o(rx, ro, j2)
                == mirror(child_o(x, o, i2)));
            lemma_mirror_value(child_x(x, o, i2), child_o(x, o, i2), cf);
            lemma_best_ge(x, o, 9, cf, i2);
            assert(b1 >= b2);
        }
    }
}

/// Law: two positions related by mirroring the board score the same;
/// with the quarter turn this covers every symmetry of the square.
pub proof fn lemma_mirror_symmetry(x: u16, o: u16)
    ensures
        game_value(mirror(x), mirror(o)) == game_value(x, o),
{
    crate::bit_board::lemma_mirror_board(x, o);
    crate::bit_board::lemma_mirror_counts(x | o);
    lemma_mirror_value(x, o, free9(x | o));
}

/// Law: a resolved table slot holds one of exactly the three final
/// scores, never the sentinel and never anything else. (That a visited
/// position is resolved, and with it everything reachable from it, is
/// what `Engine::search` ensures.)
pub proof fn lemma_score_range(engine: Engine, x: u16, o: u16)
    requires
        engine.wf(),
        x <= FULL_MASK,
        o <= FULL_MASK,
        engine.resolved(x, o),
    ensures
        engine.entry(spec_index_of(x, o)) == WINNING_SCORE || engine.entry(spec_index_of(x, o))
            == DRAWING_SCORE || engine.entry(spec_index_of(x, o)) == LOSING_SCORE,
{
    lemma_value_range(x, o, free9(x | o));
}

/// Law: a table kept well-formed never shows the sentinel for a
/// position reachable from a resolved one — solving the empty board
/// leaves no reachable position unknown.
pub proof fn lemma_reachable_resolved(engine: Engine, x: u16, o: u16, x2: u16, o2: u16)
    requires
        engine.wf(),
        x <= FULL_MASK,
        o <= FULL_MASK,
        engine.resolved(x, o),
        in_subtree(x, o, x2, o2),
    ensures
        engine.resolved(x2, o2),
{
}

/// The outcome of a solved position stated absolutely, not relative to
/// the side to move.
#[derive(Clone, Copy, PartialEq, Eq, Structural, Debug)]
pub enum Outcome {
    /// X wins with perfect play.
    XWinning,
    /// Neither side can force a win.
    Drawing,
    /// O wins with perfect play.
    OWinning,
}

/// The absolute outcome a score names, given whose score it is.
pub open spec fn spec_absolute_outcome(value: int, x_to_move: bool) -> Outcome {
    let for_x = if x_to_move {
        value
    } else {
        -value
    };
    if for_x == WINNING_SCORE as int {
        Outcome::XWinning
    } else if for_x == LOSING_SCORE as int {
        Outcome::OWinning
    } else {
        Outcome::Drawing
    }
}

/// Turns a table entry, which scores its position for the side to
/// move, into the absolute outcome a report prints: the score is
/// negated when O is the side to move.
pub fn absolute_outcome(score: Score, x_to_move: bool) -> (r: Outcome)
    requires
        score.0 == WINNING_SCORE || score.0 == DRAWING_SCORE || score.0 == LOSING_SCORE,
    ensures
        r == spec_absolute_outcome(score.0 as int, x_to_move),
{
    let for_x = if x_to_move {
        score.0
    } else {
        -score.0
    };
    if for_x == WINNING_SCORE {
        Outcome::XWinning
    } else if for_x == LOSING_SCORE {
        Outcome::OWinning
    } else {
        Outcome::Drawing
    }
}

/// The solver: owns the transposition table, a dense array with one
/// slot per raw position encoding. Slots move from the sentinel to a
/// final score and never change afterwards.
pub struct Engine {
    pub transposition_table: Vec<Score>,
}

impl Engine {
    /// The raw table entry of a slot.
    pub open spec fn entry(self, index: int) -> i8 {
        self.transposition_table@[index].0
    }

    /// The slot of a position holds a final score.
    pub open spec fn resolved(self, x: u16, o: u16) -> bool {
        self.entry(spec_index_of(x, o)) != UNKNOWN_SCORE
    }

    /// The table invariant: full size; every resolved slot holds the
    /// exact score of its position; and a resolved position's whole
    /// game tree is resolved with it.
    pub open spec fn wf(self) -> bool {
        &&& self.transposition_table@.len() == LOOKUP_SIZE
        &&& forall|x: u16, o: u16|
            x <= FULL_MASK && o <= FULL_MASK && #[trigger] self.resolved(x, o)
                ==> self.entry(spec_index_of(x, o)) == game_value(x, o)
        &&& forall|x: u16, o: u16, x2: u16, o2: u16|
            x <= FULL_MASK && o <= FULL_MASK && #[trigger] self.resolved(x, o)
                && #[trigger] in_subtree(x, o, x2, o2) ==> self.resolved(x2, o2)
    }

    /// A fresh engine: every slot of the table holds the sentinel.
    pub fn new() -> (engine: Engine)
        ensures
            engine.wf(),
            forall|index: int|
                0 <= index < LOOKUP_SIZE ==> #[trigger] engine.entry(index) == UNKNOWN_SCORE,
    {
        let mut table: Vec<Score> = Vec::new();
        while table.len() < LOOKUP_SIZE
            invariant
                table@.len() <= LOOKUP_SIZE,
                forall|j: int| 0 <= j < table@.len() ==> #[trigger] table@[j].0 == UNKNOWN_SCORE,
            decreases LOOKUP_SIZE - table@.len(),
        {
            table.push(Score(UNKNOWN_SCORE));
        }
        let engine = Engine { transposition_table: table };
        proof {
            assert forall|x: u16, o: u16| x <= FULL_MASK && o <= FULL_MASK implies !engine.resolved(
                x,
                o,
            ) by {
                crate::board::lemma_encode_decode(x, o);
            }
        }
        engine
    }

    /// Scores a position for its side to move: the exact value under
    /// perfect play by both sides. Every position visited on the way is
    /// recorded in the table, so a repeated position is answered from
    /// its slot. The side to move is handed in explicitly and must
    /// agree with the mark counts; the counts must be those of
    /// alternate play, except in a position already decided (the
    /// opponent has a line, or the board is full), which is scored
    /// without recursion.
    #[verifier::loop_isolation(false)]
    pub fn search(&mut self, board: Board, x_to_move: bool) -> (r: Score)
        requires
            old(self).wf(),
            board.wf(),
            x_to_move == turn_is_x(board.x.0, board.o.0),
            balanced(board.x.0, board.o.0) || is_win(
                if x_to_move {
                    board.o.0
                } else {
                    board.x.0
                },
            ) || free9(board.x.0 | board.o.0) == 0,
        ensures
            final(self).wf(),
            r.0 == game_value(board.x.0, board.o.0),
            final(self).resolved(board.x.0, board.o.0),
            final(self).entry(spec_index_of(board.x.0, board.o.0)) == r.0,
            forall|x2: u16, o2: u16|
                x2 <= FULL_MASK && o2 <= FULL_MASK && #[trigger] old(self).resolved(x2, o2)
                    ==> final(self).entry(spec_index_of(x2, o2)) == old(self).entry(
                    spec_index_of(x2, o2),
                ),
            forall|x2: u16, o2: u16|
                #[trigger] in_subtree(board.x.0, board.o.0, x2, o2) ==> final(self).resolved(
                    x2,
                    o2,
                ),
        decreases free9(board.x.0 | board.o.0),
    {
        let ghost x_bits = board.x.0;
        let ghost o_bits = board.o.0;
        let ghost xo = x_bits | o_bits;
        proof {
            crate::board::lemma_encode_decode(x_bits, o_bits);
        }
        let index = board.position_index();

        let saved = self.transposition_table[index];
        if saved.0 != UNKNOWN_SCORE {
            proof {
                assert(self.resolved(x_bits, o_bits));
            }
            return saved;
        }

        let enemy_board = if x_to_move {
            board.o
        } else {
            board.x
        };
        if enemy_board.has_won() {
            let ghost pre = *self;
            self.transposition_table[index] = Score(LOSING_SCORE);
            proof {
                lemma_table_update(pre, *self, x_bits, o_bits, LOSING_SCORE);
            }
            return Score(LOSING_SCORE);
        }

        let combined = board.x.0 | board.o.0;
        let free_bits = !combined & FULL_MASK;
        proof {
            assert(free_bits <= 0x1FF && free_bits & !crate::bit_board::low_mask(0) == free_bits)
                by (bit_vector)
                requires free_bits == !combined & 0x1FF;
        }
        let mut not_occupied = BitBoard::new(free_bits);
        let mut best_score = Score(UNKNOWN_SCORE);
        let ghost mut m: u16 = 0;
        let ghost cfuel: nat = (free9(xo) - 1) as nat;

        while not_occupied.0 != 0
            invariant
                self.wf(),
                m <= 9,
                not_occupied.0 == free_bits & !crate::bit_board::low_mask(m),
                not_occupied.wf(),
                best_score.0 == best_below(x_bits, o_bits, m as int, cfuel),
                m > 0 ==> free9(xo) > 0,
                forall|x2: u16, o2: u16|
                    x2 <= FULL_MASK && o2 <= FULL_MASK && #[trigger] old(self).resolved(x2, o2)
                        ==> self.entry(spec_index_of(x2, o2)) == old(self).entry(
                        spec_index_of(x2, o2),
                    ),
                forall|x2: u16, o2: u16|
                    #[trigger] in_child_subtree_below(x_bits, o_bits, m as int, x2, o2, cfuel)
                        ==> self.resolved(x2, o2),
            decreases not_occupied.0,
        {
            let ghost nv = not_occupied.0;
            let ghost table_at_top = *self;
            let place = not_occupied.pop();
            let ghost k = place as u16;
            proof {
                lemma_mask_advance(free_bits, nv, m, k);
                lemma_free_mask_cell(combined, k);
                assert(k < 9 && !cell(xo, k));
                assert forall|j: u16| m <= j < k implies cell(xo, j) by {
                    lemma_free_mask_cell(combined, j);
                }
                crate::bit_board::lemma_free_below_positive(xo, 9);
                assert(exists|i: u16| i < 9 && !cell(xo, i));
                crate::bit_board::lemma_cell_or(x_bits, o_bits, k);
            }
            let mut new_board = board;
            if x_to_move {
                new_board.x.set(place as u8);
            } else {
                new_board.o.set(place as u8);
            }
            proof {
                lemma_child_bits(x_bits, o_bits, k);
                lemma_child_turn(x_bits, o_bits, k);
                assert(new_board.x.0 == child_x(x_bits, o_bits, k) && new_board.o.0 == child_o(
                    x_bits,
                    o_bits,
                    k,
                ));
                assert(free9(new_board.x.0 | new_board.o.0) == cfuel);
            }
            let child = self.search(new_board, !x_to_move);
            proof {
                lemma_value_range(child_x(x_bits, o_bits, k), child_o(x_bits, o_bits, k), cfuel);
            }
            let score = -child.0;
            proof {
                lemma_best_skip(x_bits, o_bits, m as int, k as int, cfuel);
            }
            if score > best_score.0 {
                best_score = Score(score);
            }
            proof {
                // slots resolved at the function's entry still hold
                // their values: the recursive call preserved them
                assert forall|x2: u16, o2: u16|
                    x2 <= FULL_MASK && o2 <= FULL_MASK && #[trigger] old(self).resolved(
                        x2,
                        o2,
                    ) implies self.entry(spec_index_of(x2, o2)) == old(self).entry(
                    spec_index_of(x2, o2),
                ) by {
                    assert(table_at_top.resolved(x2, o2));
                }
                // the slots covered so far stay resolved through the
                // recursive call, and the child's whole tree is now in
                assert forall|x2: u16, o2: u16|
                    #[trigger] in_child_subtree_below(
                        x_bits,
                        o_bits,
                        k as int + 1,
                        x2,
                        o2,
                        cfuel,
                    ) implies self.resolved(x2, o2) by {
                    let i = choose|i: u16|
                        i < k as int + 1 && !cell(xo, i) && in_subtree_fuel(
                            child_x(x_bits, o_bits, i),
                            child_o(x_bits, o_bits, i),
                            x2,
                            o2,
                            cfuel,
                        );
                    if i == k {
                        assert(in_subtree(child_x(x_bits, o_bits, k), child_o(x_bits, o_bits, k), x2, o2));
                    } else {
                        assert(i < m);
                        assert(in_child_subtree_below(x_bits, o_bits, m as int, x2, o2, cfuel));
                        assert(table_at_top.resolved(x2, o2));
                        lemma_child_bits(x_bits, o_bits, i);
                        lemma_subtree_bounds(
                            child_x(x_bits, o_bits, i),
                            child_o(x_bits, o_bits, i),
                            x2,
                            o2,
                            cfuel,
                        );
                    }
                }
                m = (k + 1) as u16;
            }
        }

        proof {
            lemma_mask_done(free_bits, m);
            assert forall|j: u16| m <= j < 9 implies cell(xo, j) by {
                lemma_free_mask_cell(combined, j);
            }
            if m == 0 {
                crate::bit_board::lemma_free_below_positive(xo, 9);
                assert forall|i: u16| i < 9 implies cell(xo, i) by {
                    lemma_free_mask_cell(combined, i);
                }
                assert(free9(xo) == 0);
            } else {
                lemma_best_skip(x_bits, o_bits, m as int, 9, cfuel);
                crate::bit_board::lemma_free_below_positive(xo, 9);
                lemma_best_none(x_bits, o_bits, 9, cfuel);
                assert(best_below(x_bits, o_bits, 9, cfuel) != UNKNOWN_SCORE as int);
            }
        }
        if best_score.0 == UNKNOWN_SCORE {
            best_score = Score(DRAWING_SCORE);
        }
        let ghost pre = *self;
        self.transposition_table[index] = best_score;
        proof {
            assert forall|x2: u16, o2: u16|
                #[trigger] in_subtree(x_bits, o_bits, x2, o2) && !(x2 == x_bits && o2
                    == o_bits) implies pre.resolved(x2, o2) by {
                lemma_child_subtree_skip(x_bits, o_bits, m as int, 9, x2, o2, cfuel);
            }
            lemma_table_update(pre, *self, x_bits, o_bits, best_score.0);
            assert forall|x2: u16, o2: u16|
                x2 <= FULL_MASK && o2 <= FULL_MASK && #[trigger] old(self).resolved(
                    x2,
                    o2,
                ) implies self.entry(spec_index_of(x2, o2)) == old(self).entry(
                spec_index_of(x2, o2),
            ) by {
                assert(pre.resolved(x2, o2));
            }
        }
        best_score
    }
}

/// Writing the exact score of a position whose remaining game tree is
/// already resolved preserves the table invariant.
pub(crate) proof fn lemma_table_update(pre: Engine, post: Engine, x: u16, o: u16, v: i8)
    requires
        pre.wf(),
        x <= FULL_MASK,
        o <= FULL_MASK,
        v != UNKNOWN_SCORE,
        v == game_value(x, o),
        post.transposition_table@ == pre.transposition_table@.update(
            spec_index_of(x, o),
            Score(v),
        ),
        forall|x2: u16, o2: u16|
            #[trigger] in_subtree(x, o, x2, o2) && !(x2 == x && o2 == o) ==> pre.resolved(x2, o2),
    ensures
        post.wf(),
        post.resolved(x, o),
        post.entry(spec_index_of(x, o)) == v,
        forall|x2: u16, o2: u16|
            x2 <= FULL_MASK && o2 <= FULL_MASK && #[trigger] pre.resolved(x2, o2)
                ==> post.entry(spec_index_of(x2, o2)) == pre.entry(spec_index_of(x2, o2)),
        forall|x2: u16, o2: u16|
            #[trigger] in_subtree(x, o, x2, o2) ==> post.resolved(x2, o2),
{
    crate::board::lemma_encode_decode(x, o);
    let idx = spec_index_of(x, o);
    assert forall|x2: u16, o2: u16|
        x2 <= FULL_MASK && o2 <= FULL_MASK && !(x2 == x && o2 == o) implies spec_index_of(x2, o2)
        != idx && #[trigger] post.entry(spec_index_of(x2, o2)) == pre.entry(
        spec_index_of(x2, o2),
    ) by {
        crate::board::lemma_encode_decode(x2, o2);
        if spec_index_of(x2, o2) == idx {
            crate::board::lemma_encode_injective(x2, o2, x, o);
        }
    }
    // every resolved slot of the new table holds the exact score
    assert forall|x2: u16, o2: u16|
        x2 <= FULL_MASK && o2 <= FULL_MASK && #[trigger] post.resolved(x2, o2) implies post.entry(
        spec_index_of(x2, o2),
    ) == game_value(x2, o2) by {
        if !(x2 == x && o2 == o) {
            assert(pre.resolved(x2, o2));
        }
    }
    // a resolved position's game tree stays resolved
    assert forall|x2: u16, o2: u16, x3: u16, o3: u16|
        x2 <= FULL_MASK && o2 <= FULL_MASK && #[trigger] post.resolved(x2, o2)
            && #[trigger] in_subtree(x2, o2, x3, o3) implies post.resolved(x3, o3) by {
        lemma_subtree_bounds(x2, o2, x3, o3, free9(x2 | o2));
        if x2 == x && o2 == o {
            if !(x3 == x && o3 == o) {
                assert(pre.resolved(x3, o3));
            }
        } else {
            assert(pre.resolved(x2, o2));
            assert(pre.resolved(x3, o3));
        }
    }
    assert forall|x2: u16, o2: u16| #[trigger] in_subtree(x, o, x2, o2) implies post.resolved(
        x2,
        o2,
    ) by {
        lemma_subtree_bounds(x, o, x2, o2, free9(x | o));
        if !(x2 == x && o2 == o) {
            assert(pre.resolved(x2, o2));
        }
    }
}

} // verus!
