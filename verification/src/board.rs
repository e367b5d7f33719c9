//! The bit-packed board and its rules.
//!
//! A position is a pair of stone masks `(p1, p2)`: `p1` holds the stones of
//! the player about to move, `p2` those of the player who moved last; every
//! transition swaps the two roles.  Column `x` (0..6) uses bit `y * 8 + x`
//! for row `y` (0..5); bit `y * 8 + 7` is padding, so that horizontal and
//! diagonal win checks never wrap across column boundaries.

use vstd::prelude::*;

verus! {

/// Mask of the 42 playable cells.
pub const FULL_GRID: u64 = 0b11111110111111101111111011111110111111101111111;

/// A mask that only marks playable cells.
pub open spec fn playable(m: u64) -> bool {
    m & FULL_GRID == m
}

/// A well-formed position: both masks playable and disjoint.
pub open spec fn valid_state(p1: u64, p2: u64) -> bool {
    playable(p1) && playable(p2) && p1 & p2 == 0
}

/// Four aligned stones in `m`: the four direction-shift conjunctions
/// (horizontal, vertical, both diagonals) over the padded layout.
pub open spec fn winning_mask(m: u64) -> bool {
    ||| m & (m >> 1) & (m >> 2) & (m >> 3) != 0
    ||| m & (m >> 8) & (m >> 16) & (m >> 24) != 0
    ||| m & (m >> 9) & (m >> 18) & (m >> 27) != 0
    ||| m & (m >> 7) & (m >> 14) & (m >> 21) != 0
}

/// True if `player` holds four in a row (in any of the four directions);
/// on a playable mask that is exactly an aligned four of its cells.
pub fn is_winning(player: u64) -> (r: bool)
    ensures
        r == winning_mask(player),
        playable(player) ==> r == four_in_a_row(player),
{
    proof {
        if playable(player) {
            lemma_winning_mask_characterization(player);
        }
    }
    if player & player >> 1 & player >> 2 & player >> 3 != 0 {
        return true;
    }
    if player & player >> 8 & player >> 16 & player >> 24 != 0 {
        return true;
    }
    if player & player >> 9 & player >> 18 & player >> 27 != 0 {
        return true;
    }
    if player & player >> 7 & player >> 14 & player >> 21 != 0 {
        return true;
    }
    false
}

/// Terminal status of a position, relative to the player about to move.
#[derive(Clone, Copy, PartialEq, Eq, Structural, Debug)]
pub enum Status {
    Playing,
    Won,
    Lost,
    Draw,
}

/// The status of `(p1, p2)`: `Won` if the mover already has four in a row,
/// `Lost` if the last mover has, `Draw` on a full board, else `Playing`,
/// checked in that priority order.
pub open spec fn spec_status(p1: u64, p2: u64) -> Status {
    if winning_mask(p1) {
        Status::Won
    } else if winning_mask(p2) {
        Status::Lost
    } else if p1 | p2 == FULL_GRID {
        Status::Draw
    } else {
        Status::Playing
    }
}

/// Computes the terminal status of a position.
pub fn get_status(p1: u64, p2: u64) -> (s: Status)
    ensures
        s == spec_status(p1, p2),
{
    if is_winning(p1) {
        return Status::Won;
    }
    if is_winning(p2) {
        return Status::Lost;
    }
    if FULL_GRID == p1 | p2 {
        return Status::Draw;
    }
    Status::Playing
}

/// The bit of cell `(x, y)`.
pub open spec fn cell_bit(x: int, y: int) -> u64 {
    1u64 << ((y * 8 + x) as u64)
}

/// Cell `(x, y)` is empty in `grid`.
pub open spec fn cell_free(grid: u64, x: int, y: int) -> bool {
    grid & cell_bit(x, y) == 0
}

/// The lowest row at or above `y` whose cell in column `x` is empty.
pub open spec fn first_free_row_from(grid: u64, x: int, y: int) -> Option<int>
    decreases 6 - y,
{
    if y < 0 || y >= 6 {
        None
    } else if cell_free(grid, x, y) {
        Some(y)
    } else {
        first_free_row_from(grid, x, y + 1)
    }
}

/// The lowest empty row of column `x` (gravity: a stone lands there).
pub open spec fn first_free_row(grid: u64, x: int) -> Option<int> {
    first_free_row_from(grid, x, 0)
}

/// The position after the mover drops a stone at `(x, y)`: the roles swap
/// and the mover's stones gain one bit.
pub open spec fn child_state(p1: u64, p2: u64, x: int, y: int) -> (u64, u64) {
    (p2, p1 | cell_bit(x, y))
}

/// The legal next positions from column `x` rightwards, in ascending
/// column order; a full column contributes none.
pub open spec fn moves_from(p1: u64, p2: u64, x: int) -> Seq<(u64, u64)>
    decreases 7 - x,
{
    if x < 0 || x >= 7 {
        Seq::empty()
    } else {
        let rest = moves_from(p1, p2, x + 1);
        match first_free_row(p1 | p2, x) {
            Some(y) => seq![child_state(p1, p2, x, y)] + rest,
            None => rest,
        }
    }
}

/// All legal next positions, one per non-full column, columns ascending.
pub open spec fn spec_moves(p1: u64, p2: u64) -> Seq<(u64, u64)> {
    moves_from(p1, p2, 0)
}

/// `m` is the position reached by one legal drop from `(p1, p2)`: it differs
/// from it by exactly one set bit, in the lowest empty row of some column.
pub open spec fn is_move_of(p1: u64, p2: u64, m: (u64, u64)) -> bool {
    exists|x: int, y: int|
        0 <= x < 7 && 0 <= y < 6 && first_free_row(p1 | p2, x) == Some(y) && m == #[trigger] child_state(
            p1,
            p2,
            x,
            y,
        )
}

/// Finds the lowest empty row of column `x`, as the generator scans it.
fn lowest_free_row(grid: u64, x: u64) -> (r: Option<u64>)
    requires
        x < 7,
    ensures
        match r {
            Some(y) => y < 6 && first_free_row(grid, x as int) == Some(y as int),
            None => first_free_row(grid, x as int) is None,
        },
{
    let mut y: u64 = 0;
    while y < 6
        invariant
            x < 7,
            y <= 6,
            first_free_row(grid, x as int) == first_free_row_from(grid, x as int, y as int),
        decreases 6 - y,
    {
        if grid & 1u64 << (y * 8 + x) == 0 {
            assert(cell_free(grid, x as int, y as int));
            return Some(y);
        }
        assert(!cell_free(grid, x as int, y as int));
        y = y + 1;
    }
    None
}

/// Lists the legal next positions: for each column `0..7` in ascending
/// order, the state after dropping a stone on the lowest empty cell; a
/// full column contributes no move.
pub fn get_moves(p1: u64, p2: u64) -> (moves: Vec<(u64, u64)>)
    ensures
        moves@ == spec_moves(p1, p2),
{
    let grid = p1 | p2;
    let mut moves: Vec<(u64, u64)> = Vec::new();
    let mut x: u64 = 0;
    while x < 7
        invariant
            x <= 7,
            grid == p1 | p2,
            spec_moves(p1, p2) =~= moves@ + moves_from(p1, p2, x as int),
        decreases 7 - x,
    {
        match lowest_free_row(grid, x) {
            Some(y) => {
                moves.push((p2, p1 | 1u64 << (y * 8 + x)));
                assert(moves@.last() == child_state(p1, p2, x as int, y as int));
            },
            None => {},
        }
        x = x + 1;
        assert(spec_moves(p1, p2) =~= moves@ + moves_from(p1, p2, x as int));
    }
    assert(moves@ =~= spec_moves(p1, p2));
    moves
}

proof fn lemma_first_free_row_props(grid: u64, x: int, y: int)
    requires
        0 <= y <= 6,
    ensures
        first_free_row_from(grid, x, y) matches Some(r) ==> y <= r < 6 && cell_free(grid, x, r),
    decreases 6 - y,
{
    if y < 6 && !cell_free(grid, x, y) {
        lemma_first_free_row_props(grid, x, y + 1);
    }
}

proof fn lemma_moves_from_props(p1: u64, p2: u64, x: int)
    requires
        0 <= x <= 7,
    ensures
        moves_from(p1, p2, x).len() <= 7 - x,
        forall|k: int|
            0 <= k < moves_from(p1, p2, x).len() ==> is_move_of(
                p1,
                p2,
                #[trigger] moves_from(p1, p2, x)[k],
            ),
    decreases 7 - x,
{
    if x < 7 {
        lemma_moves_from_props(p1, p2, x + 1);
        let rest = moves_from(p1, p2, x + 1);
        match first_free_row(p1 | p2, x) {
            Some(y) => {
                lemma_first_free_row_props(p1 | p2, x, 0);
                let head = child_state(p1, p2, x, y);
                assert(is_move_of(p1, p2, head));
                assert(moves_from(p1, p2, x) == seq![head] + rest);
                assert(forall|k: int|
                    1 <= k < moves_from(p1, p2, x).len() ==> moves_from(p1, p2, x)[k] == rest[k
                        - 1]);
            },
            None => {},
        }
    }
}

/// The move generator yields at most seven entries, each reached from the
/// input by exactly one stone dropped on the lowest empty row of a column.
pub proof fn lemma_moves_shape(p1: u64, p2: u64)
    ensures
        spec_moves(p1, p2).len() <= 7,
        forall|k: int|
            0 <= k < spec_moves(p1, p2).len() ==> is_move_of(
                p1,
                p2,
                #[trigger] spec_moves(p1, p2)[k],
            ),
{
    lemma_moves_from_props(p1, p2, 0);
}

/// A legal drop from a well-formed position yields a well-formed position
/// whose grid has gained exactly the one new stone.
pub proof fn lemma_move_valid(p1: u64, p2: u64, m: (u64, u64))
    requires
        valid_state(p1, p2),
        is_move_of(p1, p2, m),
    ensures
        valid_state(m.0, m.1),
        exists|x: int, y: int|
            0 <= x < 7 && 0 <= y < 6 && m.0 | m.1 == (p1 | p2) | #[trigger] cell_bit(x, y) && (p1
                | p2) & cell_bit(x, y) == 0,
{
    let (x, y) = choose|x: int, y: int|
        0 <= x < 7 && 0 <= y < 6 && first_free_row(p1 | p2, x) == Some(y) && m
            == #[trigger] child_state(p1, p2, x, y);
    lemma_first_free_row_props(p1 | p2, x, 0);
    let xx = x as u64;
    let yy = y as u64;
    let b = cell_bit(x, y);
    assert(b == 1u64 << (yy * 8 + xx));
    let g1 = p1;
    let g2 = p2;
    assert((1u64 << (yy * 8 + xx)) & FULL_GRID == 1u64 << (yy * 8 + xx)) by (bit_vector)
        requires
            xx < 7,
            yy < 6,
    ;
    assert((g1 | (1u64 << (yy * 8 + xx))) & FULL_GRID == g1 | (1u64 << (yy * 8 + xx)))
        by (bit_vector)
        requires
            g1 & FULL_GRID == g1,
            (1u64 << (yy * 8 + xx)) & FULL_GRID == 1u64 << (yy * 8 + xx),
    ;
    assert(g2 & (g1 | (1u64 << (yy * 8 + xx))) == 0) by (bit_vector)
        requires
            g1 & g2 == 0,
            (g1 | g2) & (1u64 << (yy * 8 + xx)) == 0,
    ;
    assert(g2 | (g1 | (1u64 << (yy * 8 + xx))) == (g1 | g2) | (1u64 << (yy * 8 + xx)))
        by (bit_vector);
    assert(m.0 | m.1 == (p1 | p2) | cell_bit(x, y));
    assert((p1 | p2) & cell_bit(x, y) == 0);
}

/// How many bits of `m` at positions `i..64` are set.
pub open spec fn ones_from(m: u64, i: int) -> nat
    decreases 64 - i,
{
    if i < 0 || i >= 64 {
        0
    } else {
        (if m & (1u64 << (i as u64)) != 0 {
            1nat
        } else {
            0nat
        }) + ones_from(m, i + 1)
    }
}

/// How many bits of `m` are set.
pub open spec fn ones(m: u64) -> nat {
    ones_from(m, 0)
}

proof fn lemma_ones_from_bound(m: u64, i: int)
    requires
        0 <= i <= 64,
    ensures
        ones_from(m, i) <= 64 - i,
    decreases 64 - i,
{
    if i < 64 {
        lemma_ones_from_bound(m, i + 1);
    }
}

/// A 64-bit mask holds at most 64 stones.
pub proof fn lemma_ones_bound(m: u64)
    ensures
        ones(m) <= 64,
{
    lemma_ones_from_bound(m, 0);
}

proof fn lemma_ones_from_set(m: u64, j: int, i: int)
    requires
        0 <= j < 64,
        m & (1u64 << (j as u64)) == 0,
        0 <= i <= 64,
    ensures
        ones_from(m | (1u64 << (j as u64)), i) == ones_from(m, i) + (if i <= j {
            1int
        } else {
            0int
        }),
    decreases 64 - i,
{
    if i < 64 {
        lemma_ones_from_set(m, j, i + 1);
        let mm = m;
        let ii = i as u64;
        let jj = j as u64;
        if i == j {
            assert((mm | (1u64 << jj)) & (1u64 << ii) != 0) by (bit_vector)
                requires
                    ii == jj,
                    ii < 64,
            ;
        } else {
            assert((mm | (1u64 << jj)) & (1u64 << ii) == mm & (1u64 << ii)) by (bit_vector)
                requires
                    ii != jj,
                    ii < 64,
                    jj < 64,
            ;
        }
    }
}

/// Setting one fresh bit raises the stone count by exactly one.
pub proof fn lemma_ones_set(m: u64, j: int)
    requires
        0 <= j < 64,
        m & (1u64 << (j as u64)) == 0,
    ensures
        ones(m | (1u64 << (j as u64))) == ones(m) + 1,
{
    lemma_ones_from_set(m, j, 0);
}

/// A legal drop raises the grid's stone count by exactly one.
pub proof fn lemma_move_grows(p1: u64, p2: u64, m: (u64, u64))
    requires
        valid_state(p1, p2),
        is_move_of(p1, p2, m),
    ensures
        valid_state(m.0, m.1),
        ones(m.0 | m.1) == ones(p1 | p2) + 1,
{
    lemma_move_valid(p1, p2, m);
    let (x, y) = choose|x: int, y: int|
        0 <= x < 7 && 0 <= y < 6 && m.0 | m.1 == (p1 | p2) | #[trigger] cell_bit(x, y) && (p1 | p2)
            & cell_bit(x, y) == 0;
    let j = y * 8 + x;
    assert(cell_bit(x, y) == 1u64 << (j as u64));
    lemma_ones_set(p1 | p2, j);
}

proof fn lemma_col_none(grid: u64, x: int, y: int)
    requires
        0 <= y <= 6,
    ensures
        (first_free_row_from(grid, x, y) is None) <==> (forall|r: int|
            y <= r < 6 ==> !cell_free(grid, x, r)),
    decreases 6 - y,
{
    if y < 6 {
        lemma_col_none(grid, x, y + 1);
    }
}

proof fn lemma_moves_from_none(p1: u64, p2: u64, x: int)
    requires
        0 <= x <= 7,
    ensures
        (moves_from(p1, p2, x).len() == 0) <==> (forall|c: int|
            x <= c < 7 ==> #[trigger] first_free_row(p1 | p2, c) is None),
    decreases 7 - x,
{
    if x < 7 {
        lemma_moves_from_none(p1, p2, x + 1);
    }
}

proof fn lemma_col_full_mask(g: u64, x: u64)
    by (bit_vector)
    requires
        x < 7,
        g & (1u64 << x) != 0,
        g & (1u64 << (8 + x)) != 0,
        g & (1u64 << (16 + x)) != 0,
        g & (1u64 << (24 + x)) != 0,
        g & (1u64 << (32 + x)) != 0,
        g & (1u64 << (40 + x)) != 0,
    ensures
        g & (0x0000010101010101u64 << x) == 0x0000010101010101u64 << x,
{
}

/// The generator yields no move exactly when the board is full.
pub proof fn lemma_moves_empty_iff_full(p1: u64, p2: u64)
    requires
        valid_state(p1, p2),
    ensures
        (spec_moves(p1, p2).len() == 0) <==> (p1 | p2 == FULL_GRID),
{
    let g = p1 | p2;
    let a = p1;
    let b = p2;
    assert((a | b) & 0b11111110111111101111111011111110111111101111111u64 == (a | b))
        by (bit_vector)
        requires
            a & 0b11111110111111101111111011111110111111101111111u64 == a,
            b & 0b11111110111111101111111011111110111111101111111u64 == b,
    ;
    lemma_moves_from_none(p1, p2, 0);
    if spec_moves(p1, p2).len() == 0 {
        assert forall|x: int, y: int| 0 <= x < 7 && 0 <= y < 6 implies !cell_free(g, x, y) by {
            assert(first_free_row(g, x) is None);
            lemma_col_none(g, x, 0);
        }
        assert forall|x: u64| x < 7 implies g & (0x0000010101010101u64 << x) == 0x0000010101010101u64
            << x by {
            assert(!cell_free(g, x as int, 0) && !cell_free(g, x as int, 1) && !cell_free(
                g,
                x as int,
                2,
            ) && !cell_free(g, x as int, 3) && !cell_free(g, x as int, 4) && !cell_free(
                g,
                x as int,
                5,
            ));
            lemma_col_full_mask(g, x);
        }
        assert(g == 0b11111110111111101111111011111110111111101111111u64) by (bit_vector)
            requires
                g & 0b11111110111111101111111011111110111111101111111u64 == g,
                g & (0x0000010101010101u64 << 0u64) == 0x0000010101010101u64 << 0u64,
                g & (0x0000010101010101u64 << 1u64) == 0x0000010101010101u64 << 1u64,
                g & (0x0000010101010101u64 << 2u64) == 0x0000010101010101u64 << 2u64,
                g & (0x0000010101010101u64 << 3u64) == 0x0000010101010101u64 << 3u64,
                g & (0x0000010101010101u64 << 4u64) == 0x0000010101010101u64 << 4u64,
                g & (0x0000010101010101u64 << 5u64) == 0x0000010101010101u64 << 5u64,
                g & (0x0000010101010101u64 << 6u64) == 0x0000010101010101u64 << 6u64,
        ;
    }
    if g == FULL_GRID {
        assert forall|c: int| 0 <= c < 7 implies #[trigger] first_free_row(g, c) is None by {
            assert forall|r: int| 0 <= r < 6 implies !cell_free(g, c, r) by {
                let xx = c as u64;
                let yy = r as u64;
                assert(0b11111110111111101111111011111110111111101111111u64 & (1u64 << (yy * 8
                    + xx)) != 0) by (bit_vector)
                    requires
                        xx < 7,
                        yy < 6,
                ;
            }
            lemma_col_none(g, c, 0);
        }
    }
}

proof fn lemma_first_free_unchanged(grid: u64, xc: int, yc: int, x: int, y: int)
    requires
        0 <= xc < 7,
        0 <= yc < 6,
        0 <= x < 7,
        x != xc,
        0 <= y <= 6,
    ensures
        first_free_row_from(grid | cell_bit(xc, yc), x, y) == first_free_row_from(grid, x, y),
    decreases 6 - y,
{
    if y < 6 {
        let g = grid;
        let xx = x as u64;
        let yy = y as u64;
        let xcc = xc as u64;
        let ycc = yc as u64;
        assert((g | (1u64 << (ycc * 8 + xcc))) & (1u64 << (yy * 8 + xx)) == g & (1u64 << (yy * 8
            + xx))) by (bit_vector)
            requires
                xx < 7,
                xcc < 7,
                xx != xcc,
                yy < 6,
                ycc < 6,
        ;
        assert(cell_free(grid | cell_bit(xc, yc), x, y) == cell_free(grid, x, y));
        lemma_first_free_unchanged(grid, xc, yc, x, y + 1);
    }
}

proof fn lemma_moves_len_cols(p1: u64, p2: u64, q1: u64, q2: u64, xc: int, x: int)
    requires
        0 <= x <= 7,
        forall|c: int|
            x <= c < 7 && c != xc ==> #[trigger] first_free_row(p1 | p2, c) == first_free_row(
                q1 | q2,
                c,
            ),
    ensures
        moves_from(p1, p2, x).len() <= moves_from(q1, q2, x).len() + (if x <= xc {
            1int
        } else {
            0int
        }),
    decreases 7 - x,
{
    if x < 7 {
        lemma_moves_len_cols(p1, p2, q1, q2, xc, x + 1);
    }
}

/// Round trip: after one drop, at most the one column just filled can have
/// closed; the move count falls by at most one.
pub proof fn lemma_moves_monotonic(p1: u64, p2: u64, m: (u64, u64))
    requires
        valid_state(p1, p2),
        spec_moves(p1, p2).contains(m),
    ensures
        spec_moves(p1, p2).len() <= spec_moves(m.0, m.1).len() + 1,
{
    lemma_moves_shape(p1, p2);
    assert(is_move_of(p1, p2, m));
    lemma_move_valid(p1, p2, m);
    let (xc, yc) = choose|x: int, y: int|
        0 <= x < 7 && 0 <= y < 6 && m.0 | m.1 == (p1 | p2) | #[trigger] cell_bit(x, y) && (p1 | p2)
            & cell_bit(x, y) == 0;
    assert forall|c: int|
        0 <= c < 7 && c != xc implies #[trigger] first_free_row(p1 | p2, c) == first_free_row(
        m.0 | m.1,
        c,
    ) by {
        lemma_first_free_unchanged(p1 | p2, xc, yc, c, 0);
    }
    lemma_moves_len_cols(p1, p2, m.0, m.1, xc, 0);
}

/// A position is reachable in `k` plies when alternating legal drops from
/// the empty board, never playing on from a decided position, arrive at it.
pub open spec fn reachable_in(s: (u64, u64), k: nat) -> bool
    decreases k,
{
    if k == 0 {
        s == (0u64, 0u64)
    } else {
        exists|t: (u64, u64)|
            reachable_in(t, (k - 1) as nat) && spec_status(t.0, t.1) == Status::Playing
                && #[trigger] spec_moves(t.0, t.1).contains(s)
    }
}

/// A position that legal play from the empty board can arrive at.
pub open spec fn reachable(s: (u64, u64)) -> bool {
    exists|k: nat| reachable_in(s, k)
}

proof fn lemma_reachable_in_valid(s: (u64, u64), k: nat)
    requires
        reachable_in(s, k),
    ensures
        valid_state(s.0, s.1),
    decreases k,
{
    if k == 0 {
        assert(0u64 & 0b11111110111111101111111011111110111111101111111u64 == 0u64) by (bit_vector);
        assert(0u64 & 0u64 == 0u64) by (bit_vector);
    } else {
        let t = choose|t: (u64, u64)|
            reachable_in(t, (k - 1) as nat) && spec_status(t.0, t.1) == Status::Playing
                && #[trigger] spec_moves(t.0, t.1).contains(s);
        lemma_reachable_in_valid(t, (k - 1) as nat);
        lemma_moves_shape(t.0, t.1);
        lemma_move_valid(t.0, t.1, s);
    }
}

/// Every reachable position is well formed.
pub proof fn lemma_reachable_valid(s: (u64, u64))
    requires
        reachable(s),
    ensures
        valid_state(s.0, s.1),
{
    let k = choose|k: nat| reachable_in(s, k);
    lemma_reachable_in_valid(s, k);
}

/// In a reachable position, at most one of the two players holds four in a
/// row: play stops as soon as a position is decided.
pub proof fn lemma_no_double_win(s: (u64, u64))
    requires
        reachable(s),
    ensures
        !(winning_mask(s.0) && winning_mask(s.1)),
{
    let k = choose|k: nat| reachable_in(s, k);
    if k == 0 {
        assert(0u64 & (0u64 >> 1) & (0u64 >> 2) & (0u64 >> 3) == 0) by (bit_vector);
        assert(0u64 & (0u64 >> 8) & (0u64 >> 16) & (0u64 >> 24) == 0) by (bit_vector);
        assert(0u64 & (0u64 >> 9) & (0u64 >> 18) & (0u64 >> 27) == 0) by (bit_vector);
        assert(0u64 & (0u64 >> 7) & (0u64 >> 14) & (0u64 >> 21) == 0) by (bit_vector);
    } else {
        let t = choose|t: (u64, u64)|
            reachable_in(t, (k - 1) as nat) && spec_status(t.0, t.1) == Status::Playing
                && #[trigger] spec_moves(t.0, t.1).contains(s);
        lemma_moves_shape(t.0, t.1);
        assert(is_move_of(t.0, t.1, s));
        let (x, y) = choose|x: int, y: int|
            0 <= x < 7 && 0 <= y < 6 && first_free_row(t.0 | t.1, x) == Some(y) && s
                == #[trigger] child_state(t.0, t.1, x, y);
        assert(s.0 == t.1);
        assert(!winning_mask(t.1));
    }
}

/// `(x, y)` is a stone of `m`.
pub open spec fn cell_set(m: u64, x: int, y: int) -> bool {
    m & cell_bit(x, y) != 0
}

/// Four aligned stones of `m`, named cell by cell: a horizontal, vertical
/// or diagonal run of four inside the 7 by 6 grid.
pub open spec fn four_in_a_row(m: u64) -> bool {
    ||| (exists|x: int, y: int|
        0 <= x < 4 && 0 <= y < 6 && #[trigger] cell_set(m, x, y) && cell_set(m, x + 1, y)
            && cell_set(m, x + 2, y) && cell_set(m, x + 3, y))
    ||| (exists|x: int, y: int|
        0 <= x < 7 && 0 <= y < 3 && #[trigger] cell_set(m, x, y) && cell_set(m, x, y + 1)
            && cell_set(m, x, y + 2) && cell_set(m, x, y + 3))
    ||| (exists|x: int, y: int|
        0 <= x < 4 && 0 <= y < 3 && #[trigger] cell_set(m, x, y) && cell_set(m, x + 1, y + 1)
            && cell_set(m, x + 2, y + 2) && cell_set(m, x + 3, y + 3))
    ||| (exists|x: int, y: int|
        3 <= x < 7 && 0 <= y < 3 && #[trigger] cell_set(m, x, y) && cell_set(m, x - 1, y + 1)
            && cell_set(m, x - 2, y + 2) && cell_set(m, x - 3, y + 3))
}

proof fn lemma_nonzero_bit_from(v: u64, i: u64)
    requires
        v >> i != 0,
        i < 64,
    ensures
        exists|j: u64| i <= j < 64 && v & #[trigger] (1u64 << j) != 0,
    decreases 64 - i,
{
    if v & (1u64 << i) != 0 {
        assert(i <= i < 64 && v & (1u64 << i) != 0);
    } else {
        assert(i < 63 && (v >> (i + 1)) != 0) by (bit_vector)
            requires
                v >> i != 0,
                v & (1u64 << i) == 0,
                i < 64,
        ;
        lemma_nonzero_bit_from(v, (i + 1) as u64);
    }
}

proof fn lemma_nonzero_bit(v: u64)
    requires
        v != 0,
    ensures
        exists|j: u64| j < 64 && v & #[trigger] (1u64 << j) != 0,
{
    assert(v >> 0u64 == v) by (bit_vector);
    lemma_nonzero_bit_from(v, 0);
}

/// On a mask of playable cells the four shift conjunctions detect exactly
/// the aligned fours: the padding column keeps runs from wrapping.
pub proof fn lemma_winning_mask_characterization(m: u64)
    requires
        playable(m),
    ensures
        winning_mask(m) == four_in_a_row(m),
{
    if winning_mask(m) {
        if m & (m >> 1) & (m >> 2) & (m >> 3) != 0 {
            let c = m & (m >> 1) & (m >> 2) & (m >> 3);
            lemma_nonzero_bit(c);
            let j = choose|j: u64| j < 64 && c & #[trigger] (1u64 << j) != 0;
            let xx = j % 8;
            let yy = j / 8;
            assert(m & (1u64 << (yy * 8 + xx)) != 0 && m & (1u64 << (yy * 8 + xx + 1)) != 0 && m
                & (1u64 << (yy * 8 + xx + 2)) != 0 && m & (1u64 << (yy * 8 + xx + 3)) != 0 && xx < 4
                && yy < 6) by (bit_vector)
                requires
                    (m & (m >> 1) & (m >> 2) & (m >> 3)) & (1u64 << j) != 0,
                    j < 64,
                    xx == j % 8,
                    yy == j / 8,
                    m & 0b11111110111111101111111011111110111111101111111u64 == m,
            ;
            let x = xx as int;
            let y = yy as int;
            assert(cell_set(m, x, y) && cell_set(m, x + 1, y) && cell_set(m, x + 2, y) && cell_set(
                m,
                x + 3,
                y,
            ));
        } else if m & (m >> 8) & (m >> 16) & (m >> 24) != 0 {
            let c = m & (m >> 8) & (m >> 16) & (m >> 24);
            lemma_nonzero_bit(c);
            let j = choose|j: u64| j < 64 && c & #[trigger] (1u64 << j) != 0;
            let xx = j % 8;
            let yy = j / 8;
            assert(m & (1u64 << (yy * 8 + xx)) != 0 && m & (1u64 << ((yy + 1) * 8 + xx)) != 0 && m
                & (1u64 << ((yy + 2) * 8 + xx)) != 0 && m & (1u64 << ((yy + 3) * 8 + xx)) != 0 && xx
                < 7 && yy < 3) by (bit_vector)
                requires
                    (m & (m >> 8) & (m >> 16) & (m >> 24)) & (1u64 << j) != 0,
                    j < 64,
                    xx == j % 8,
                    yy == j / 8,
                    m & 0b11111110111111101111111011111110111111101111111u64 == m,
            ;
            let x = xx as int;
            let y = yy as int;
            assert(cell_set(m, x, y) && cell_set(m, x, y + 1) && cell_set(m, x, y + 2) && cell_set(
                m,
                x,
                y + 3,
            ));
        } else if m & (m >> 9) & (m >> 18) & (m >> 27) != 0 {
            let c = m & (m >> 9) & (m >> 18) & (m >> 27);
            lemma_nonzero_bit(c);
            let j = choose|j: u64| j < 64 && c & #[trigger] (1u64 << j) != 0;
            let xx = j % 8;
            let yy = j / 8;
            assert(m & (1u64 << (yy * 8 + xx)) != 0 && m & (1u64 << ((yy + 1) * 8 + xx + 1)) != 0
                && m & (1u64 << ((yy + 2) * 8 + xx + 2)) != 0 && m & (1u64 << ((yy + 3) * 8 + xx
                + 3)) != 0 && xx < 4 && yy < 3) by (bit_vector)
                requires
                    (m & (m >> 9) & (m >> 18) & (m >> 27)) & (1u64 << j) != 0,
                    j < 64,
                    xx == j % 8,
                    yy == j / 8,
                    m & 0b11111110111111101111111011111110111111101111111u64 == m,
            ;
            let x = xx as int;
            let y = yy as int;
            assert(cell_set(m, x, y) && cell_set(m, x + 1, y + 1) && cell_set(m, x + 2, y + 2)
                && cell_set(m, x + 3, y + 3));
        } else {
            let c = m & (m >> 7) & (m >> 14) & (m >> 21);
            lemma_nonzero_bit(c);
            let j = choose|j: u64| j < 64 && c & #[trigger] (1u64 << j) != 0;
            let xx = j % 8;
            let yy = j / 8;
            assert(m & (1u64 << (yy * 8 + xx)) != 0 && m & (1u64 << (((yy + 1) * 8 + (xx - 1)) as u64)) != 0
                && m & (1u64 << (((yy + 2) * 8 + (xx - 2)) as u64)) != 0 && m & (1u64 << (((yy + 3) * 8 + (xx - 3)) as u64)) != 0 && 3 <= xx && xx < 7 && yy < 3) by (bit_vector)
                requires
                    (m & (m >> 7) & (m >> 14) & (m >> 21)) & (1u64 << j) != 0,
                    j < 64,
                    xx == j % 8,
                    yy == j / 8,
                    m & 0b11111110111111101111111011111110111111101111111u64 == m,
            ;
            let x = xx as int;
            let y = yy as int;
            assert(cell_set(m, x, y) && cell_set(m, x - 1, y + 1) && cell_set(m, x - 2, y + 2)
                && cell_set(m, x - 3, y + 3));
        }
        assert(four_in_a_row(m));
    }
    if four_in_a_row(m) && !winning_mask(m) {
        if exists|x: int, y: int|
            0 <= x < 4 && 0 <= y < 6 && #[trigger] cell_set(m, x, y) && cell_set(m, x + 1, y)
                && cell_set(m, x + 2, y) && cell_set(m, x + 3, y) {
            let (x, y) = choose|x: int, y: int|
                0 <= x < 4 && 0 <= y < 6 && #[trigger] cell_set(m, x, y) && cell_set(m, x + 1, y)
                    && cell_set(m, x + 2, y) && cell_set(m, x + 3, y);
            let xx = x as u64;
            let yy = y as u64;
            assert(m & (m >> 1) & (m >> 2) & (m >> 3) != 0) by (bit_vector)
                requires
                    xx < 4,
                    yy < 6,
                    m & (1u64 << (yy * 8 + xx)) != 0,
                    m & (1u64 << (yy * 8 + xx + 1)) != 0,
                    m & (1u64 << (yy * 8 + xx + 2)) != 0,
                    m & (1u64 << (yy * 8 + xx + 3)) != 0,
            ;
        } else if exists|x: int, y: int|
            0 <= x < 7 && 0 <= y < 3 && #[trigger] cell_set(m, x, y) && cell_set(m, x, y + 1)
                && cell_set(m, x, y + 2) && cell_set(m, x, y + 3) {
            let (x, y) = choose|x: int, y: int|
                0 <= x < 7 && 0 <= y < 3 && #[trigger] cell_set(m, x, y) && cell_set(m, x, y + 1)
                    && cell_set(m, x, y + 2) && cell_set(m, x, y + 3);
            let xx = x as u64;
            let yy = y as u64;
            assert(m & (m >> 8) & (m >> 16) & (m >> 24) != 0) by (bit_vector)
                requires
                    xx < 7,
                    yy < 3,
                    m & (1u64 << (yy * 8 + xx)) != 0,
                    m & (1u64 << ((yy + 1) * 8 + xx)) != 0,
                    m & (1u64 << ((yy + 2) * 8 + xx)) != 0,
                    m & (1u64 << ((yy + 3) * 8 + xx)) != 0,
            ;
        } else if exists|x: int, y: int|
            0 <= x < 4 && 0 <= y < 3 && #[trigger] cell_set(m, x, y) && cell_set(m, x + 1, y + 1)
                && cell_set(m, x + 2, y + 2) && cell_set(m, x + 3, y + 3) {
            let (x, y) = choose|x: int, y: int|
                0 <= x < 4 && 0 <= y < 3 && #[trigger] cell_set(m, x, y) && cell_set(
                    m,
                    x + 1,
                    y + 1,
                ) && cell_set(m, x + 2, y + 2) && cell_set(m, x + 3, y + 3);
            let xx = x as u64;
            let yy = y as u64;
            assert(m & (m >> 9) & (m >> 18) & (m >> 27) != 0) by (bit_vector)
                requires
                    xx < 4,
                    yy < 3,
                    m & (1u64 << (yy * 8 + xx)) != 0,
                    m & (1u64 << ((yy + 1) * 8 + xx + 1)) != 0,
                    m & (1u64 << ((yy + 2) * 8 + xx + 2)) != 0,
                    m & (1u64 << ((yy + 3) * 8 + xx + 3)) != 0,
            ;
        } else {
            let (x, y) = choose|x: int, y: int|
                3 <= x < 7 && 0 <= y < 3 && #[trigger] cell_set(m, x, y) && cell_set(
                    m,
                    x - 1,
                    y + 1,
                ) && cell_set(m, x - 2, y + 2) && cell_set(m, x - 3, y + 3);
            let xx = x as u64;
            let yy = y as u64;
            assert(m & (m >> 7) & (m >> 14) & (m >> 21) != 0) by (bit_vector)
                requires
                    3 <= xx,
                    xx < 7,
                    yy < 3,
                    m & (1u64 << (yy * 8 + xx)) != 0,
                    m & (1u64 << (((yy + 1) * 8 + (xx - 1)) as u64)) != 0,
                    m & (1u64 << (((yy + 2) * 8 + (xx - 2)) as u64)) != 0,
                    m & (1u64 << (((yy + 3) * 8 + (xx - 3)) as u64)) != 0,
            ;
        }
        assert(winning_mask(m));
    }
}

/// Validates and applies a human move: the stone falls to the lowest empty
/// row of column `col` (0-based); rejected when the column is out of range
/// or already full.
pub fn play_column(p1: u64, p2: u64, col: u64) -> (r: Option<(u64, u64)>)
    ensures
        match r {
            Some(m) => col < 7 && (first_free_row(p1 | p2, col as int) matches Some(y) && m
                == child_state(p1, p2, col as int, y)),
            None => col >= 7 || first_free_row(p1 | p2, col as int) is None,
        },
{
    if col >= 7 {
        return None;
    }
    match lowest_free_row(p1 | p2, col) {
        Some(y) => Some((p2, p1 | 1u64 << (y * 8 + col))),
        None => None,
    }
}

/// The 1-based column of the move that turned `previous_state` into
/// `new_state`, recovered from the single stone the two differ by.
pub fn to_user_move(previous_state: (u64, u64), new_state: (u64, u64)) -> (r: u32)
    requires
        exists|x: int, y: int|
            0 <= x < 7 && 0 <= y < 6 && previous_state.0 ^ new_state.1 == #[trigger] cell_bit(x, y),
    ensures
        1 <= r <= 7,
        exists|y: int|
            0 <= y < 6 && previous_state.0 ^ new_state.1 == #[trigger] cell_bit(r as int - 1, y),
{
    let m = previous_state.0 ^ new_state.1;
    let mut y: u64 = 0;
    while y < 6
        invariant
            y <= 6,
            m == previous_state.0 ^ new_state.1,
            exists|x: int, yy: int|
                0 <= x < 7 && 0 <= yy < 6 && m == #[trigger] cell_bit(x, yy),
            forall|x: int, yy: int| 0 <= x < 7 && 0 <= yy < y ==> m != #[trigger] cell_bit(x, yy),
        decreases 6 - y,
    {
        let mut x: u64 = 0;
        while x < 7
            invariant
                y < 6,
                x <= 7,
                m == previous_state.0 ^ new_state.1,
                forall|xx: int| 0 <= xx < x ==> m != #[trigger] cell_bit(xx, y as int),
            decreases 7 - x,
        {
            if 1u64 << (y * 8 + x) == m {
                assert(m == cell_bit(x as int, y as int));
                let r = (x + 1) as u32;
                assert(r as int - 1 == x as int);
                assert(previous_state.0 ^ new_state.1 == cell_bit(r as int - 1, y as int));
                return r;
            }
            x = x + 1;
        }
        y = y + 1;
    }
    proof {
        assert(false);
    }
    unreached()
}

} // verus!
