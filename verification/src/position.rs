//! The packed bitboard position.
//!
//! Bit layout: each of the 7 columns owns 7 consecutive bits, the 6 playable
//! rows from bottom to top followed by one always-empty sentinel row. Column
//! `c`, row `r` is bit `7 * c + r`:
//!
//! ```text
//! .  .  .  .  .  .  .
//! 5 12 19 26 33 40 47
//! 4 11 18 25 32 39 46
//! 3 10 17 24 31 38 45
//! 2  9 16 23 30 37 44
//! 1  8 15 22 29 36 43
//! 0  7 14 21 28 35 42
//! ```
//!
//! The sentinel row keeps shift-based adjacency checks (horizontal and
//! diagonal) from bleeding bits of one column into the next.
use vstd::prelude::*;

use crate::bitops::bit;
use crate::bitops::lemma_bit_ops;
use crate::bitops::lemma_shift_bits;

verus! {

/// Number of playable rows in each column.
pub const HEIGHT: u64 = 6;

/// Number of columns.
pub const WIDTH: u64 = 7;

/// Rows per column in the bit layout: the playable rows plus one sentinel row.
pub const FULL_HEIGHT: u64 = HEIGHT + 1;

/// One bit in the bottom playable row of every column.
pub const FULL_BOTTOM_MASK: u64 = 0b1000000100000010000001000000100000010000001;

/// All playable cells: six rows per column, the sentinel rows left out.
pub const FULL_BOARD_MASK: u64 = 0b111111011111101111110111111011111101111110111111;

/// The lowest score any reachable position can have: the fastest possible
/// loss, to the opponent's fourth stone.
pub const MIN_SCORE: i32 = -18;

/// The 7 bits owned by column `c` (6 playable rows and the sentinel row).
pub open spec fn colbits(m: u64, c: u64) -> u64 {
    (m >> ((7 * c) as u64)) & 0x7f
}

/// A column is a contiguous run of stones starting at the bottom row, so its
/// 7 bits hold one of the seven values with only low bits set.
pub open spec fn is_run(b: u64) -> bool {
    b == 0 || b == 1 || b == 3 || b == 7 || b == 15 || b == 31 || b == 63
}

/// Number of stones in a column whose bits form a run.
pub open spec fn run_len(b: u64) -> u64 {
    if b == 0 {
        0
    } else if b == 1 {
        1
    } else if b == 3 {
        2
    } else if b == 7 {
        3
    } else if b == 15 {
        4
    } else if b == 31 {
        5
    } else if b == 63 {
        6
    } else {
        7
    }
}

/// The run of column bits that holds exactly `h` stones.
pub open spec fn height_bits(h: u64) -> u64 {
    if h == 0 {
        0
    } else if h == 1 {
        1
    } else if h == 2 {
        3
    } else if h == 3 {
        7
    } else if h == 4 {
        15
    } else if h == 5 {
        31
    } else {
        63
    }
}

/// The gravity invariant of a stone mask: no bit outside the 49 board bits,
/// and every column a contiguous run starting at the bottom row.
pub open spec fn grid_wf(m: u64) -> bool {
    (m >> 49) == 0 && forall|c: u64| c < 7 ==> is_run(#[trigger] colbits(m, c))
}

/// Number of stones in column `c`.
pub open spec fn col_height(m: u64, c: u64) -> u64 {
    run_len(colbits(m, c))
}

/// Total number of stones on the board.
pub open spec fn stones(m: u64) -> int {
    col_height(m, 0) + col_height(m, 1) + col_height(m, 2) + col_height(m, 3) + col_height(m, 4)
        + col_height(m, 5) + col_height(m, 6)
}

/// Bit index of the lowest empty cell of column `c`.
pub open spec fn landing_index(m: u64, c: u64) -> u64 {
    (7 * c + col_height(m, c)) as u64
}

/// The stone mask after a stone drops into column `c`.
pub open spec fn with_stone(m: u64, c: u64) -> u64 {
    m | (1u64 << landing_index(m, c))
}

/// The packed cache key of a position: `player + mask` in one word. With
/// gravity and `player` a subset of `mask`, no two positions share a key.
pub open spec fn spec_key(p: Position) -> u64 {
    (p.player + p.mask) as u64
}

/// `i` is the lowest empty cell of a column that is not full: the cells where
/// a move can land right now.
pub open spec fn playable(m: u64, i: u64) -> bool {
    exists|c: u64| c < 7 && #[trigger] col_height(m, c) < 6 && i == 7 * c + col_height(m, c)
}

/// How a column's 7-bit view and its run length relate to single bits of the
/// whole mask.
pub proof fn lemma_column_bits()
    by (bit_vector)
    ensures
        forall|m: u64, c: u64, r: u64| c < 7 && r < 7 ==> (#[trigger] bit(colbits(m, c), r) <==> bit(
            m,
            (7 * c + r) as u64,
        )),
        forall|b: u64, i: u64| is_run(b) && i < 7 ==> (#[trigger] bit(b, i) <==> i < run_len(b)),
        forall|m: u64, i: u64| (m >> 49) == 0 && i >= 49 ==> !bit(m, i),
        forall|c: u64, r: u64| c < 7 && r < 7 ==> (#[trigger] bit(FULL_BOARD_MASK, (7 * c + r) as u64)
            <==> r < 6),
{
}

/// Testing a single bit with a mask, and why a subset of the stones stays
/// within the stones.
pub proof fn lemma_mask_bits()
    by (bit_vector)
    ensures
        forall|m: u64, k: u64| k < 64 ==> ((#[trigger] (m & (1u64 << k))) == 0 <==> !bit(m, k)),
        forall|p: u64, m: u64| (#[trigger] (p & m)) == p ==> ((p ^ m) & m) == (p ^ m) && p <= m,
        forall|a: u64, m: u64, x: u64| (a & m) == a ==> (#[trigger] (a & (m | x))) == a,
        forall|a: u64, m: u64, b: u64|
            #![trigger (a & m), (m & b)]
            (a & m) == a && (m & b) == m ==> (a & b) == a,
        forall|p: u64, m: u64, b: u64|
            #![trigger ((p ^ m) ^ (m | b))]
            (p & m) == p && (m & b) == 0 ==> ((p ^ m) ^ (m | b)) == (p | b),
        forall|m: u64| (#[trigger] (m >> 49)) == 0 <==> m < 0x2000000000000,
        forall|c: u64| #[trigger] colbits(0u64, c) == 0,
        forall|m: u64| (#[trigger] (0u64 & m)) == 0,
        forall|t: u64| #[trigger] bit(0x7fu64, t) <==> t < 7,
        (0u64 >> 49) == 0,
{
}

/// Setting one bit changes no other column, and keeps the mask on the board.
pub proof fn lemma_set_bit()
    by (bit_vector)
    ensures
        forall|m: u64, i: u64, c: u64|
            c < 7 && i < 64 && (i < 7 * c || i >= 7 * c + 7) ==> colbits(m | (1u64 << i), c)
                == colbits(m, c),
        forall|m: u64, i: u64| i < 49 && (m >> 49) == 0 ==> (((m | (1u64 << i)) >> 49) == 0),
{
}

/// Dropping a stone in column `c` of a gravity-respecting mask: the shifted
/// add touches only that column, and sets exactly the lowest empty cell.
pub proof fn lemma_add_stone(m: u64, c: u64, h: u64)
    by (bit_vector)
    requires
        c < 7,
        h <= 5,
        colbits(m, c) == height_bits(h),
        (m >> 49) == 0,
    ensures
        m + (1u64 << ((7 * c) as u64)) < 0x4000000000000,
        (m | ((m + (1u64 << ((7 * c) as u64))) as u64)) == (m | (1u64 << ((7 * c + h) as u64))),
        (((m + (1u64 << ((7 * c) as u64))) as u64) & (0x7fu64 << ((7 * c) as u64))) == (1u64 << ((7
            * c + h) as u64)),
        !bit(m, (7 * c + h) as u64),
        colbits(m | (1u64 << ((7 * c + h) as u64)), c) == height_bits((h + 1) as u64),
{
}

/// Everything dropping one stone into column `c` does to the mask: the
/// shifted add of `play` sets exactly the lowest empty cell of that column,
/// gravity is preserved, that column grows by one and no other changes.
pub proof fn lemma_play_effect(m: u64, c: u64)
    requires
        grid_wf(m),
        c < 7,
        col_height(m, c) < 6,
    ensures
        m + (1u64 << ((7 * c) as u64)) < 0x4000000000000,
        (m | ((m + (1u64 << ((7 * c) as u64))) as u64)) == with_stone(m, c),
        (((m + (1u64 << ((7 * c) as u64))) as u64) & (0x7fu64 << ((7 * c) as u64))) == (1u64
            << landing_index(m, c)),
        grid_wf(with_stone(m, c)),
        col_height(with_stone(m, c), c) == col_height(m, c) + 1,
        forall|c2: u64| c2 < 7 && c2 != c ==> colbits(with_stone(m, c), c2) == colbits(m, c2),
        stones(with_stone(m, c)) == stones(m) + 1,
        !bit(m, landing_index(m, c)),
{
    let h = col_height(m, c);
    assert(is_run(colbits(m, c)));
    assert(colbits(m, c) == height_bits(h));
    lemma_add_stone(m, c, h);
    let li = (7 * c + h) as u64;
    assert(li == landing_index(m, c));
    let nm = with_stone(m, c);
    assert(nm == (m | (1u64 << li)));
    assert(colbits(nm, c) == height_bits((h + 1) as u64));
    assert(col_height(nm, c) == h + 1);
    assert forall|c2: u64| c2 < 7 && c2 != c implies colbits(nm, c2) == colbits(m, c2) by {
        lemma_set_bit();
        assert(li < 7 * c2 || li >= 7 * c2 + 7);
    }
    assert((nm >> 49) == 0) by {
        lemma_set_bit();
    }
    assert(grid_wf(nm));
    assert(stones(nm) == stones(m) + 1) by {
        assert(col_height(nm, 0) + col_height(nm, 1) + col_height(nm, 2) + col_height(nm, 3)
            + col_height(nm, 4) + col_height(nm, 5) + col_height(nm, 6) == col_height(m, 0)
            + col_height(m, 1) + col_height(m, 2) + col_height(m, 3) + col_height(m, 4)
            + col_height(m, 5) + col_height(m, 6) + 1);
    }
}

/// Column views distribute over the word operators.
pub proof fn lemma_colbits_and()
    by (bit_vector)
    ensures
        forall|x: u64, y: u64, c: u64|
            c < 7 ==> #[trigger] colbits(x & y, c) == (colbits(x, c) & colbits(y, c)),
{
}

/// Adding two words whose columns stay below the sentinel row adds them
/// column by column: no carry crosses a column boundary.
pub proof fn lemma_sum_digits(p: u64, m: u64, c: u64)
    by (bit_vector)
    requires
        c < 7,
        (p >> 49) == 0,
        (m >> 49) == 0,
        (p & m) == p,
        colbits(m, 0) <= 63,
        colbits(m, 1) <= 63,
        colbits(m, 2) <= 63,
        colbits(m, 3) <= 63,
        colbits(m, 4) <= 63,
        colbits(m, 5) <= 63,
        colbits(m, 6) <= 63,
    ensures
        p + m < 0x4000000000000,
        colbits((p + m) as u64, c) == colbits(p, c) + colbits(m, c),
{
}

/// Within one column, the sum of the stones-of-one-side bits and the run of
/// occupied bits determines both: the runs of different heights occupy
/// disjoint ranges of sums.
pub proof fn lemma_digit_unique(pa: u64, ma: u64, pb: u64, mb: u64)
    by (bit_vector)
    requires
        is_run(ma),
        is_run(mb),
        (pa & ma) == pa,
        (pb & mb) == pb,
        pa + ma == pb + mb,
    ensures
        pa == pb,
        ma == mb,
{
}

/// Words that agree on every column agree.
pub proof fn lemma_eq_from_columns(a: u64, b: u64)
    by (bit_vector)
    requires
        (a >> 49) == 0,
        (b >> 49) == 0,
        colbits(a, 0) == colbits(b, 0),
        colbits(a, 1) == colbits(b, 1),
        colbits(a, 2) == colbits(b, 2),
        colbits(a, 3) == colbits(b, 3),
        colbits(a, 4) == colbits(b, 4),
        colbits(a, 5) == colbits(b, 5),
        colbits(a, 6) == colbits(b, 6),
    ensures
        a == b,
{
}

/// No two positions share a key: `player + mask` adds column by column
/// without carries, and within one column the sum pins both the height and
/// the mover's stones.
pub proof fn lemma_key_injective(a: Position, b: Position)
    requires
        a.wf(),
        b.wf(),
        spec_key(a) == spec_key(b),
    ensures
        a == b,
{
    lemma_mask_bits();
    lemma_colbits_and();
    assert(is_run(colbits(a.mask, 0)) && is_run(colbits(a.mask, 1)) && is_run(colbits(a.mask, 2))
        && is_run(colbits(a.mask, 3)) && is_run(colbits(a.mask, 4)) && is_run(colbits(a.mask, 5))
        && is_run(colbits(a.mask, 6)));
    assert(is_run(colbits(b.mask, 0)) && is_run(colbits(b.mask, 1)) && is_run(colbits(b.mask, 2))
        && is_run(colbits(b.mask, 3)) && is_run(colbits(b.mask, 4)) && is_run(colbits(b.mask, 5))
        && is_run(colbits(b.mask, 6)));
    proof_column_equal(a, b, 0);
    proof_column_equal(a, b, 1);
    proof_column_equal(a, b, 2);
    proof_column_equal(a, b, 3);
    proof_column_equal(a, b, 4);
    proof_column_equal(a, b, 5);
    proof_column_equal(a, b, 6);
    lemma_eq_from_columns(a.player, b.player);
    lemma_eq_from_columns(a.mask, b.mask);
}

/// One column of the key-equality argument.
proof fn proof_column_equal(a: Position, b: Position, c: u64)
    requires
        a.wf(),
        b.wf(),
        c < 7,
        spec_key(a) == spec_key(b),
    ensures
        colbits(a.player, c) == colbits(b.player, c),
        colbits(a.mask, c) == colbits(b.mask, c),
{
    lemma_mask_bits();
    lemma_colbits_and();
    assert(is_run(colbits(a.mask, 0)) && is_run(colbits(a.mask, 1)) && is_run(colbits(a.mask, 2))
        && is_run(colbits(a.mask, 3)) && is_run(colbits(a.mask, 4)) && is_run(colbits(a.mask, 5))
        && is_run(colbits(a.mask, 6)));
    assert(is_run(colbits(b.mask, 0)) && is_run(colbits(b.mask, 1)) && is_run(colbits(b.mask, 2))
        && is_run(colbits(b.mask, 3)) && is_run(colbits(b.mask, 4)) && is_run(colbits(b.mask, 5))
        && is_run(colbits(b.mask, 6)));
    lemma_sum_digits(a.player, a.mask, c);
    lemma_sum_digits(b.player, b.mask, c);
    assert((a.player + a.mask) as u64 == (b.player + b.mask) as u64);
    assert(colbits(a.player, c) & colbits(a.mask, c) == colbits(a.player & a.mask, c));
    assert(colbits(b.player, c) & colbits(b.mask, c) == colbits(b.player & b.mask, c));
    lemma_digit_unique(
        colbits(a.player, c),
        colbits(a.mask, c),
        colbits(b.player, c),
        colbits(b.mask, c),
    );
}

/// Why a mask obeying the gravity invariant stays within the board, column
/// heights stay within the rows, and the stone count within the cell count.
pub proof fn lemma_grid_bounds(m: u64)
    requires
        grid_wf(m),
    ensures
        forall|c: u64| c < 7 ==> #[trigger] col_height(m, c) <= 6,
        0 <= stones(m) <= 42,
        m < 0x2000000000000,
{
    lemma_mask_bits();
    assert forall|c: u64| c < 7 implies #[trigger] col_height(m, c) <= 6 by {
        assert(is_run(colbits(m, c)));
    }
    assert(is_run(colbits(m, 0)) && is_run(colbits(m, 1)) && is_run(colbits(m, 2)) && is_run(
        colbits(m, 3),
    ) && is_run(colbits(m, 4)) && is_run(colbits(m, 5)) && is_run(colbits(m, 6)));
}

/// The four direction steps of the bit layout: `1` up the column, `7` to the
/// next column in the same row, `6` and `8` along the two diagonals. The
/// sentinel row guarantees that four indices in arithmetic progression with
/// one of these steps, all of them playable cells, are four aligned cells.
pub open spec fn is_dir(d: u64) -> bool {
    d == 1 || d == 6 || d == 7 || d == 8
}

/// Four stones of `s` in a row starting at bit `j` with step `d`.
pub open spec fn four_from(s: u64, j: u64, d: u64) -> bool {
    bit(s, j) && bit(s, (j + d) as u64) && bit(s, (j + 2 * d) as u64) && bit(
        s,
        (j + 3 * d) as u64,
    )
}

/// The stones `s` hold four in a row in some direction.
pub open spec fn wins(s: u64) -> bool {
    exists|j: u64, d: u64| is_dir(d) && #[trigger] four_from(s, j, d)
}

/// The stone of `s` at column `c`, row `r`, in cell coordinates.
pub open spec fn cell(s: u64, c: int, r: int) -> bool {
    0 <= c < 7 && 0 <= r < 6 && bit(s, (7 * c + r) as u64)
}

/// The four cell directions: up, the two rising and falling diagonals, and
/// across.
pub open spec fn is_cell_dir(dc: int, dr: int) -> bool {
    (dc == 0 && dr == 1) || (dc == 1 && dr == -1) || (dc == 1 && dr == 0) || (dc == 1 && dr == 1)
}

/// Four stones of `s` on geometrically aligned cells.
pub open spec fn has_aligned_four(s: u64) -> bool {
    exists|c: int, r: int, dc: int, dr: int|
        #![trigger cell(s, c, r), cell(s, c + dc, r + dr)]
        is_cell_dir(dc, dr) && cell(s, c, r) && cell(s, c + dc, r + dr) && cell(
            s,
            c + 2 * dc,
            r + 2 * dr,
        ) && cell(s, c + 3 * dc, r + 3 * dr)
}

/// For stones that lie on the board, the shift-based win test means exactly
/// four aligned cells: the sentinel row keeps an index progression from
/// bleeding across columns.
pub proof fn lemma_wins_is_aligned(s: u64)
    requires
        forall|x: u64| #[trigger] bit(s, x) ==> bit(FULL_BOARD_MASK, x),
    ensures
        wins(s) <==> has_aligned_four(s),
{
    lemma_column_bits();
    assert forall|x: u64| #[trigger] bit(s, x) implies x < 49 by {
        assert((FULL_BOARD_MASK >> 49) == 0) by (bit_vector);
    }
    if wins(s) {
        let (j, d): (u64, u64) = choose|j: u64, d: u64| is_dir(d) && #[trigger] four_from(s, j, d);
        let (c0, r0) = lemma_split_index(j);
        let (c1, r1) = lemma_split_index((j + d) as u64);
        let (c2, r2) = lemma_split_index((j + 2 * d) as u64);
        let (c3, r3) = lemma_split_index((j + 3 * d) as u64);
        // a stone never sits in the sentinel row
        assert(bit(FULL_BOARD_MASK, (7 * c0 + r0) as u64));
        assert(bit(FULL_BOARD_MASK, (7 * c1 + r1) as u64));
        assert(bit(FULL_BOARD_MASK, (7 * c2 + r2) as u64));
        assert(bit(FULL_BOARD_MASK, (7 * c3 + r3) as u64));
        assert(r0 < 6 && r1 < 6 && r2 < 6 && r3 < 6);
        let (dc, dr): (int, int) = if d == 1 {
            (0int, 1int)
        } else if d == 6 {
            (1int, -1int)
        } else if d == 7 {
            (1int, 0int)
        } else {
            (1int, 1int)
        };
        // each step of the progression moves one cell in that direction:
        // the splits are unique, so they advance in lockstep
        assert(c1 == c0 + dc && r1 == r0 + dr);
        assert(c2 == c0 + 2 * dc && r2 == r0 + 2 * dr);
        assert(c3 == c0 + 3 * dc && r3 == r0 + 3 * dr);
        assert(cell(s, c0 as int, r0 as int) && cell(s, c0 + dc, r0 + dr) && cell(
            s,
            c0 + 2 * dc,
            r0 + 2 * dr,
        ) && cell(s, c0 + 3 * dc, r0 + 3 * dr));
        assert(has_aligned_four(s));
    }
    if has_aligned_four(s) {
        let (c, r, dc, dr): (int, int, int, int) = choose|c: int, r: int, dc: int, dr: int|
            #![trigger cell(s, c, r), cell(s, c + dc, r + dr)]
            is_cell_dir(dc, dr) && cell(s, c, r) && cell(s, c + dc, r + dr) && cell(
                s,
                c + 2 * dc,
                r + 2 * dr,
            ) && cell(s, c + 3 * dc, r + 3 * dr);
        let d = (7 * dc + dr) as u64;
        let j = (7 * c + r) as u64;
        assert(is_dir(d));
        assert(four_from(s, j, d));
        assert(wins(s));
    }
}

/// The stones `s` hold the three other cells of some four-in-a-row through
/// `i` with step `d`: `i` can be the first, second, third or fourth cell.
pub open spec fn completes_dir(s: u64, i: u64, d: u64) -> bool {
    (bit(s, (i + d) as u64) && bit(s, (i + 2 * d) as u64) && bit(s, (i + 3 * d) as u64)) || (i >= d
        && bit(s, (i - d) as u64) && bit(s, (i + d) as u64) && bit(s, (i + 2 * d) as u64)) || (i >= 2
        * d && bit(s, (i - 2 * d) as u64) && bit(s, (i - d) as u64) && bit(s, (i + d) as u64)) || (i
        >= 3 * d && bit(s, (i - 3 * d) as u64) && bit(s, (i - 2 * d) as u64) && bit(
        s,
        (i - d) as u64,
    ))
}

/// Filling cell `i` completes a four-in-a-row of `s`.
pub open spec fn completes(s: u64, i: u64) -> bool {
    completes_dir(s, i, 1) || completes_dir(s, i, 6) || completes_dir(s, i, 7) || completes_dir(
        s,
        i,
        8,
    )
}

/// Completing cells really complete: filling such a cell wins.
pub proof fn lemma_completes_wins(s: u64, i: u64, d: u64)
    requires
        i < 64,
        is_dir(d),
        completes_dir(s, i, d),
    ensures
        wins(s | (1u64 << i)),
{
    lemma_bit_ops();
    lemma_shift_bits();
    let t = s | (1u64 << i);
    assert(bit(t, i));
    if bit(s, (i + d) as u64) && bit(s, (i + 2 * d) as u64) && bit(s, (i + 3 * d) as u64) {
        assert(four_from(t, i, d));
    } else if i >= d && bit(s, (i - d) as u64) && bit(s, (i + d) as u64) && bit(
        s,
        (i + 2 * d) as u64,
    ) {
        assert(four_from(t, (i - d) as u64, d));
    } else if i >= 2 * d && bit(s, (i - 2 * d) as u64) && bit(s, (i - d) as u64) && bit(
        s,
        (i + d) as u64,
    ) {
        assert(four_from(t, (i - 2 * d) as u64, d));
    } else {
        assert(four_from(t, (i - 3 * d) as u64, d));
    }
}

/// A win that appears when cell `i` is filled and was not there before must
/// run through `i`: the other three cells already stand.
#[verifier::rlimit(50)]
pub proof fn lemma_wins_after(s: u64, i: u64)
    requires
        i < 64,
        !wins(s),
        wins(s | (1u64 << i)),
    ensures
        completes(s, i),
{
    lemma_bit_ops();
    lemma_shift_bits();
    let t = s | (1u64 << i);
    let (j, d): (u64, u64) = choose|j: u64, d: u64| is_dir(d) && #[trigger] four_from(t, j, d);
    assert(four_from(t, j, d));
    assert forall|x: u64| bit(t, x) implies bit(s, x) || x == i by {}
    if !four_from(s, j, d) {
        if i == j {
            assert(completes_dir(s, i, d));
        } else if i == j + d {
            assert(completes_dir(s, i, d));
        } else if i == j + 2 * d {
            assert(completes_dir(s, i, d));
        } else {
            assert(i == j + 3 * d);
            assert(completes_dir(s, i, d));
        }
    }
}

/// Bits of a mask that satisfies the gravity invariant lie on the board.
pub proof fn lemma_board_mask(m: u64)
    by (bit_vector)
    requires
        (m >> 49) == 0,
        colbits(m, 0) <= 63,
        colbits(m, 1) <= 63,
        colbits(m, 2) <= 63,
        colbits(m, 3) <= 63,
        colbits(m, 4) <= 63,
        colbits(m, 5) <= 63,
        colbits(m, 6) <= 63,
    ensures
        (m & FULL_BOARD_MASK) == m,
{
}

/// A gravity-respecting mask is a subset of the board mask.
pub proof fn lemma_grid_on_board(m: u64)
    requires
        grid_wf(m),
    ensures
        (m & FULL_BOARD_MASK) == m,
{
    assert(is_run(colbits(m, 0)) && is_run(colbits(m, 1)) && is_run(colbits(m, 2)) && is_run(
        colbits(m, 3),
    ) && is_run(colbits(m, 4)) && is_run(colbits(m, 5)) && is_run(colbits(m, 6)));
    lemma_board_mask(m);
}

/// Adding the bottom-row constant to a gravity-respecting mask raises every
/// non-full column to its lowest empty cell and overflows full columns into
/// their sentinel row, which the board mask then clears.
pub proof fn lemma_landing_column(m: u64, c: u64, h: u64)
    by (bit_vector)
    requires
        c < 7,
        h <= 6,
        colbits(m, c) == height_bits(h),
        (m >> 49) == 0,
        colbits(m, 0) <= 63,
        colbits(m, 1) <= 63,
        colbits(m, 2) <= 63,
        colbits(m, 3) <= 63,
        colbits(m, 4) <= 63,
        colbits(m, 5) <= 63,
        colbits(m, 6) <= 63,
    ensures
        m + FULL_BOTTOM_MASK < 0x8000000000000,
        colbits(((m + FULL_BOTTOM_MASK) as u64) & FULL_BOARD_MASK, c) == (if h < 6 {
            (1u64 << h)
        } else {
            0u64
        }),
        ((((m + FULL_BOTTOM_MASK) as u64) & FULL_BOARD_MASK) >> 49) == 0,
{
}

/// The one word computed from a mask whose bit `i` is set exactly when `i`
/// is the lowest empty cell of a non-full column.
pub proof fn lemma_possible_effect(m: u64)
    requires
        grid_wf(m),
    ensures
        m + FULL_BOTTOM_MASK < 0x8000000000000,
        forall|c: u64| c < 7 ==> #[trigger] colbits(((m + FULL_BOTTOM_MASK) as u64)
            & FULL_BOARD_MASK, c) == (if col_height(m, c) < 6 {
            (1u64 << col_height(m, c))
        } else {
            0u64
        }),
        ((((m + FULL_BOTTOM_MASK) as u64) & FULL_BOARD_MASK) >> 49) == 0,
{
    assert(is_run(colbits(m, 0)) && is_run(colbits(m, 1)) && is_run(colbits(m, 2)) && is_run(
        colbits(m, 3),
    ) && is_run(colbits(m, 4)) && is_run(colbits(m, 5)) && is_run(colbits(m, 6)));
    assert forall|c: u64| c < 7 implies #[trigger] colbits(((m + FULL_BOTTOM_MASK) as u64)
        & FULL_BOARD_MASK, c) == (if col_height(m, c) < 6 {
        (1u64 << col_height(m, c))
    } else {
        0u64
    }) by {
        assert(colbits(m, c) == height_bits(col_height(m, c)));
        lemma_landing_column(m, c, col_height(m, c));
    }
    lemma_landing_column(m, 0, col_height(m, 0));
}

/// Every column is made of seven rows: bit indices below 49 split uniquely
/// into a column and a row.
pub proof fn lemma_split_index(i: u64) -> (cr: (u64, u64))
    requires
        i < 49,
    ensures
        cr.0 < 7,
        cr.1 < 7,
        i == 7 * cr.0 + cr.1,
    decreases i,
{
    if i < 7 {
        (0, i)
    } else {
        let (c, r) = lemma_split_index((i - 7) as u64);
        ((c + 1) as u64, r)
    }
}

/// From the per-column description of the landing word to its single bits.
pub proof fn lemma_possible_bits(m: u64, r: u64)
    requires
        grid_wf(m),
        forall|c: u64| c < 7 ==> #[trigger] colbits(r, c) == (if col_height(m, c) < 6 {
            (1u64 << col_height(m, c))
        } else {
            0u64
        }),
        (r >> 49) == 0,
    ensures
        forall|i: u64| #[trigger] bit(r, i) <==> playable(m, i),
{
    lemma_column_bits();
    lemma_shift_bits();
    lemma_bit_ops();
    assert forall|i: u64| #[trigger] bit(r, i) <==> playable(m, i) by {
        if bit(r, i) {
            assert(i < 49);
            let (c, rr) = lemma_split_index(i);
            assert(bit(colbits(r, c), rr));
            assert(col_height(m, c) < 6 && rr == col_height(m, c));
            assert(playable(m, i));
        }
        if playable(m, i) {
            let c = choose|c: u64| c < 7 && #[trigger] col_height(m, c) < 6 && i == 7 * c
                + col_height(m, c);
            assert(bit(colbits(r, c), col_height(m, c)));
            assert(bit(r, i));
        }
    }
}

/// The empty starting position.
pub open spec fn empty_position() -> Position {
    Position { player: 0, mask: 0, play_count: 0 }
}

/// The position reached by replaying a column sequence from the empty board.
pub open spec fn replay(cols: Seq<u64>) -> Position
    decreases cols.len(),
{
    if cols.len() == 0 {
        empty_position()
    } else {
        replay(cols.drop_last()).play_spec(cols.last())
    }
}

/// Every move of the sequence lands in a column that exists and still has
/// room at its turn.
pub open spec fn replay_valid(cols: Seq<u64>) -> bool
    decreases cols.len(),
{
    if cols.len() == 0 {
        true
    } else {
        replay_valid(cols.drop_last()) && cols.last() < 7 && col_height(
            replay(cols.drop_last()).mask,
            cols.last(),
        ) < 6
    }
}

/// A prefix of a valid move sequence is valid.
pub proof fn lemma_replay_valid_prefix(cols: Seq<u64>, n: int)
    requires
        replay_valid(cols),
        0 <= n <= cols.len(),
    ensures
        replay_valid(cols.subrange(0, n)),
    decreases cols.len(),
{
    if n < cols.len() {
        assert(cols.drop_last() == cols.subrange(0, cols.len() - 1));
        lemma_replay_valid_prefix(cols.drop_last(), n);
        assert(cols.drop_last().subrange(0, n) == cols.subrange(0, n));
    } else {
        assert(cols.subrange(0, n) == cols);
    }
}

/// The column encoded by one character of the notation: the digits `1`
/// through `7` name the columns `0` through `6`; anything else is out of
/// range.
pub open spec fn col_of_char(ch: char) -> u64 {
    if ch == '1' {
        0
    } else if ch == '2' {
        1
    } else if ch == '3' {
        2
    } else if ch == '4' {
        3
    } else if ch == '5' {
        4
    } else if ch == '6' {
        5
    } else if ch == '7' {
        6
    } else {
        7
    }
}

/// The character is a digit naming a column.
pub open spec fn good_char(ch: char) -> bool {
    col_of_char(ch) < 7
}

/// The column sequence a digit string denotes.
pub open spec fn digit_cols(t: Seq<char>) -> Seq<u64> {
    t.map_values(|ch: char| col_of_char(ch))
}

/// Replaying via the notation and replaying the columns directly from the
/// empty board build the same position, hence the same key. Together with
/// the contracts of `parse` and `from_plays` this says that the two ways of
/// entering a game agree.
pub proof fn lemma_notation_matches_replay(t: Seq<char>, cols: Seq<u64>)
    requires
        t.len() == cols.len(),
        forall|k: int| 0 <= k < t.len() ==> good_char(#[trigger] t[k]) && col_of_char(t[k])
            == cols[k],
    ensures
        digit_cols(t) == cols,
        replay(digit_cols(t)) == replay(cols),
{
    assert(digit_cols(t) =~= cols);
}

/// One notation error: the offending character, or the column that was
/// already full when a move tried to land in it.
#[derive(Clone, Copy, PartialEq, Eq, Structural, Debug)]
pub enum ParseError {
    BadChar { ch: char },
    FullColumn { col: u64 },
}

/// What `possible_non_losing_play_mask` computes, of a word `r`: two or more
/// forced cells leave nothing; otherwise the bits of `r` are exactly the
/// landing cells that block every forced cell and do not sit directly below
/// an opponent winning cell.
pub open spec fn non_losing_mask_spec(p: Position, r: u64) -> bool {
    &&& (exists|i: u64, j: u64| i != j && #[trigger] p.forced(i) && #[trigger] p.forced(j)) ==> r
        == 0
    &&& (forall|i: u64, j: u64| #[trigger] p.forced(i) && #[trigger] p.forced(j) ==> i == j)
        ==> forall|i: u64|
        i < 64 ==> (#[trigger] bit(r, i) <==> (playable(p.mask, i) && (forall|j: u64| #[trigger] p.forced(
            j,
        ) ==> j == i) && !p.opponent_spec().is_threat((i + 1) as u64)))
    &&& forall|i: u64| #[trigger] bit(r, i) ==> playable(p.mask, i) && !p.opponent_spec().is_threat(
        (i + 1) as u64,
    ) && (forall|j: u64| #[trigger] p.forced(j) ==> j == i)
}

/// A board with fewer stones than cells has a column with room.
pub proof fn lemma_move_exists(m: u64)
    requires
        grid_wf(m),
        stones(m) < 42,
    ensures
        exists|c: u64| c < 7 && #[trigger] col_height(m, c) < 6,
{
    lemma_grid_bounds(m);
    if !(exists|c: u64| c < 7 && #[trigger] col_height(m, c) < 6) {
        assert(col_height(m, 0) == 6 && col_height(m, 1) == 6 && col_height(m, 2) == 6
            && col_height(m, 3) == 6 && col_height(m, 4) == 6 && col_height(m, 5) == 6
            && col_height(m, 6) == 6);
    }
}

/// If some bit of `w` lies in column `x` and every bit of `w` is a landing
/// cell, then column `x` has room and its landing cell is set in `w`.
pub proof fn lemma_column_pick(m: u64, w: u64, x: u64)
    requires
        grid_wf(m),
        x < 7,
        forall|i: u64| #[trigger] bit(w, i) ==> playable(m, i),
        ((0x7fu64 << ((7 * x) as u64)) & w) != 0,
    ensures
        col_height(m, x) < 6,
        bit(w, landing_index(m, x)),
{
    lemma_bit_ops();
    lemma_shift_bits();
    lemma_mask_bits();
    let j = crate::bitops::lemma_nonzero_bit((0x7fu64 << ((7 * x) as u64)) & w);
    assert(bit(0x7fu64 << ((7 * x) as u64), j) && bit(w, j));
    assert(7 * x <= j < 7 * x + 7);
    assert(playable(m, j));
    let c2 = choose|c2: u64| c2 < 7 && #[trigger] col_height(m, c2) < 6 && j == 7 * c2
        + col_height(m, c2);
    assert(c2 == x);
}

/// A completing cell really completes: filling it wins, whatever the
/// direction of the four-in-a-row it finishes.
pub proof fn lemma_completes_any(s: u64, i: u64)
    requires
        i < 64,
        completes(s, i),
    ensures
        wins(s | (1u64 << i)),
{
    if completes_dir(s, i, 1) {
        lemma_completes_wins(s, i, 1);
    } else if completes_dir(s, i, 6) {
        lemma_completes_wins(s, i, 6);
    } else if completes_dir(s, i, 7) {
        lemma_completes_wins(s, i, 7);
    } else {
        lemma_completes_wins(s, i, 8);
    }
}

/// The score of a win at `play_count` stones: half the cells still free when
/// the winning stone lands, counting that stone.
pub open spec fn win_score(pc: u64) -> int {
    (43 - pc) / 2
}

/// The exact game-theoretic value of a position for the side to move, in
/// half-moves: what an exhaustive search is after. A full board is worth
/// nothing; otherwise the mover takes a best column.
pub open spec fn game_value(p: Position) -> int
    decreases 42 - p.play_count, 2int,
{
    if p.play_count >= 42 {
        0
    } else {
        best_value(p, 7)
    }
}

/// The best value the mover gets from the columns below `c`, or `-100` if
/// none of them can be played.
pub open spec fn best_value(p: Position, c: u64) -> int
    decreases 42 - p.play_count, 1int, c,
{
    if p.play_count >= 42 || c == 0 || c > 7 {
        -100
    } else {
        let v = if col_height(p.mask, (c - 1) as u64) < 6 {
            value_of_play(p, (c - 1) as u64)
        } else {
            -100
        };
        let rest = best_value(p, (c - 1) as u64);
        if v >= rest {
            v
        } else {
            rest
        }
    }
}

/// What playing column `c` is worth to the side to move: the win score if
/// the move wins at once, and the negation of the child's value otherwise.
pub open spec fn value_of_play(p: Position, c: u64) -> int
    decreases 42 - p.play_count, 0int,
{
    if p.play_count >= 42 {
        -100
    } else if wins(p.player | (1u64 << landing_index(p.mask, c))) {
        win_score(p.play_count)
    } else {
        -game_value(p.play_spec(c))
    }
}

/// Dropping a stone preserves the representation invariant, at the level of
/// the spec-side `play_spec`.
pub proof fn lemma_play_spec_wf(p: Position, c: u64)
    requires
        p.wf(),
        c < 7,
        col_height(p.mask, c) < 6,
    ensures
        p.play_spec(c).wf(),
        p.play_spec(c).play_count == p.play_count + 1,
{
    lemma_grid_bounds(p.mask);
    lemma_play_effect(p.mask, c);
    lemma_mask_bits();
}

/// The game's value lies between losing every remaining cell and winning at
/// once, and so within the score range.
pub proof fn lemma_game_value_range(p: Position)
    requires
        p.wf(),
    ensures
        -((42 - p.play_count) / 2) <= game_value(p) <= (43 - p.play_count) / 2,
        -21 <= game_value(p) <= 21,
    decreases 42 - p.play_count, 1int,
{
    lemma_grid_bounds(p.mask);
    if p.play_count < 42 {
        lemma_move_exists(p.mask);
        let cl = choose|cl: u64| cl < 7 && #[trigger] col_height(p.mask, cl) < 6;
        lemma_value_of_play_range(p, cl);
        lemma_best_value_ge(p, cl, 7);
        lemma_best_value_achieved(p, 7);
        if best_value(p, 7) != -100 {
            let c2 = choose|c2: u64|
                c2 < 7 && #[trigger] col_height(p.mask, c2) < 6 && best_value(p, 7)
                    == value_of_play(p, c2);
            lemma_value_of_play_range(p, c2);
        }
    }
}

/// The value of a playable column lies between losing every remaining cell
/// and winning at once, and so within the score range.
pub proof fn lemma_value_of_play_range(p: Position, c: u64)
    requires
        p.wf(),
        p.play_count < 42,
        c < 7,
        col_height(p.mask, c) < 6,
    ensures
        -((42 - p.play_count) / 2) <= value_of_play(p, c) <= (43 - p.play_count) / 2,
        -21 <= value_of_play(p, c) <= 21,
    decreases 42 - p.play_count, 0int,
{
    lemma_grid_bounds(p.mask);
    if !wins(p.player | (1u64 << landing_index(p.mask, c))) {
        lemma_play_spec_wf(p, c);
        lemma_game_value_range(p.play_spec(c));
    }
}

/// The best over the first `n` columns is at least the value of any playable
/// column among them.
pub proof fn lemma_best_value_ge(p: Position, c: u64, n: u64)
    requires
        p.wf(),
        p.play_count < 42,
        c < n <= 7,
        col_height(p.mask, c) < 6,
    ensures
        best_value(p, n) >= value_of_play(p, c),
    decreases n,
{
    if c + 1 < n {
        lemma_best_value_ge(p, c, (n - 1) as u64);
    }
}

/// The best over the first `n` columns is either `-100` or achieved by a
/// playable column among them.
pub proof fn lemma_best_value_achieved(p: Position, n: u64)
    requires
        p.wf(),
        p.play_count < 42,
        n <= 7,
    ensures
        best_value(p, n) == -100 || exists|c2: u64|
            c2 < n && #[trigger] col_height(p.mask, c2) < 6 && best_value(p, n) == value_of_play(
                p,
                c2,
            ),
    decreases n,
{
    if n > 0 {
        lemma_best_value_achieved(p, (n - 1) as u64);
    }
}

/// A side that can win at once gets exactly the win score: no other column
/// could be worth more.
pub proof fn lemma_can_win_value(p: Position)
    requires
        p.wf(),
        p.play_count < 42,
        p.spec_can_win_next(),
    ensures
        game_value(p) == win_score(p.play_count),
{
    lemma_grid_bounds(p.mask);
    let c = choose|c: u64|
        c < 7 && #[trigger] col_height(p.mask, c) < 6 && wins(
            p.player | (1u64 << landing_index(p.mask, c)),
        );
    assert(value_of_play(p, c) == win_score(p.play_count));
    lemma_best_value_ge(p, c, 7);
    lemma_best_value_achieved(p, 7);
    if best_value(p, 7) != -100 {
        let c2 = choose|c2: u64|
            c2 < 7 && #[trigger] col_height(p.mask, c2) < 6 && best_value(p, 7) == value_of_play(
                p,
                c2,
            );
        lemma_value_of_play_range(p, c2);
    }
}

/// If every playable column's value is at most `bound`, so is the game's
/// value.
pub proof fn lemma_gv_le(p: Position, bound: int)
    requires
        p.wf(),
        p.play_count < 42,
        forall|c: u64| c < 7 && #[trigger] col_height(p.mask, c) < 6 ==> value_of_play(p, c)
            <= bound,
    ensures
        game_value(p) <= bound,
{
    lemma_grid_bounds(p.mask);
    lemma_move_exists(p.mask);
    let cl = choose|cl: u64| cl < 7 && #[trigger] col_height(p.mask, cl) < 6;
    lemma_value_of_play_range(p, cl);
    lemma_best_value_ge(p, cl, 7);
    lemma_best_value_achieved(p, 7);
    if best_value(p, 7) != -100 {
        let c2 = choose|c2: u64|
            c2 < 7 && #[trigger] col_height(p.mask, c2) < 6 && best_value(p, 7) == value_of_play(
                p,
                c2,
            );
    }
}

/// A side that cannot win at once cannot do better than winning with its
/// second next stone.
pub proof fn lemma_gv_ceiling(p: Position)
    requires
        p.wf(),
        p.play_count < 42,
        !p.spec_can_win_next(),
    ensures
        game_value(p) <= (41 - p.play_count) / 2,
{
    lemma_grid_bounds(p.mask);
    assert forall|c: u64| c < 7 && #[trigger] col_height(p.mask, c) < 6 implies value_of_play(
        p,
        c,
    ) <= (41 - p.play_count) / 2 by {
        lemma_play_spec_wf(p, c);
        lemma_game_value_range(p.play_spec(c));
        assert(game_value(p.play_spec(c)) >= -((41 - p.play_count) / 2));
    }
    lemma_gv_le(p, (41 - p.play_count) / 2);
}

/// When every legal move hands the opponent an immediate win, the game is
/// lost with half the remaining cells: the value of a full board comes out
/// of the same formula.
pub proof fn lemma_lost_value(p: Position)
    requires
        p.wf(),
        !wins(p.player ^ p.mask),
        !p.spec_can_win_next(),
        forall|c: u64| (c < 7 && #[trigger] col_height(p.mask, c) < 6) ==> p.play_spec(
            c,
        ).spec_can_win_next(),
    ensures
        game_value(p) == -((42 - p.play_count) / 2),
{
    lemma_grid_bounds(p.mask);
    if p.play_count < 42 {
        assert forall|c: u64| c < 7 && #[trigger] col_height(p.mask, c) < 6 implies value_of_play(
            p,
            c,
        ) == -((42 - p.play_count) / 2) by {
            lemma_play_spec_wf(p, c);
            let q = p.play_spec(c);
            lemma_can_win_value(q);
        }
        lemma_gv_le(p, -((42 - p.play_count) / 2));
        lemma_move_exists(p.mask);
        let cl = choose|cl: u64| cl < 7 && #[trigger] col_height(p.mask, cl) < 6;
        lemma_best_value_ge(p, cl, 7);
    }
}

/// A landing cell the non-losing mask excludes really loses: playing it
/// hands the opponent an immediately winning column.
pub proof fn lemma_excluded_move_loses(p: Position, r: u64, c: u64)
    requires
        p.wf(),
        !wins(p.player ^ p.mask),
        non_losing_mask_spec(p, r),
        r != 0,
        c < 7,
        col_height(p.mask, c) < 6,
        !bit(r, landing_index(p.mask, c)),
    ensures
        p.play_spec(c).spec_can_win_next(),
{
    lemma_grid_bounds(p.mask);
    crate::bitops::lemma_bit_ops();
    lemma_play_effect(p.mask, c);
    let i = landing_index(p.mask, c);
    let q = p.play_spec(c);
    if exists|f1: u64, f2: u64| f1 != f2 && #[trigger] p.forced(f1) && #[trigger] p.forced(f2) {
        assert(r == 0);
    } else {
        assert(playable(p.mask, i));
        if p.opponent_spec().is_threat((i + 1) as u64) {
            lemma_column_bits();
            assert(bit(FULL_BOARD_MASK, (i + 1) as u64));
            assert(i + 1 == 7 * c + (col_height(p.mask, c) + 1));
            assert(col_height(p.mask, c) + 1 < 6);
            assert(col_height(q.mask, c) == col_height(p.mask, c) + 1);
            assert(landing_index(q.mask, c) == i + 1);
            assert(!bit(p.mask, (i + 1) as u64));
            lemma_completes_any(p.player ^ p.mask, (i + 1) as u64);
            assert(col_height(q.mask, c) < 6 && wins(
                q.player | (1u64 << landing_index(q.mask, c)),
            ));
        } else {
            assert(!(forall|j: u64| #[trigger] p.forced(j) ==> j == i));
            let j = choose|j: u64| #[trigger] p.forced(j) && j != i;
            lemma_threat_persists(p, c, j);
        }
    }
}

/// The negamax sign law: on a board that is not full, the value the mover
/// obtains from a legal column never beats the position's value; a column
/// that does not win at once is worth exactly the negation of the value of
/// the position it leads to; and some legal column attains the position's
/// value.
pub proof fn lemma_negamax_sign(p: Position, c: u64)
    requires
        p.wf(),
        p.play_count < 42,
        c < 7,
        col_height(p.mask, c) < 6,
    ensures
        value_of_play(p, c) <= game_value(p),
        !wins(p.player | (1u64 << landing_index(p.mask, c))) ==> value_of_play(p, c)
            == -game_value(p.play_spec(c)),
        exists|c2: u64|
            c2 < 7 && #[trigger] col_height(p.mask, c2) < 6 && game_value(p) == value_of_play(
                p,
                c2,
            ),
{
    lemma_grid_bounds(p.mask);
    lemma_best_value_ge(p, c, 7);
    lemma_best_value_achieved(p, 7);
    lemma_value_of_play_range(p, c);
}

/// An opponent winning cell that is a landing cell of a column other than
/// the one just played stays a winning move for the opponent.
proof fn lemma_threat_persists(p: Position, c: u64, t: u64)
    requires
        p.wf(),
        c < 7,
        col_height(p.mask, c) < 6,
        playable(p.mask, t),
        p.opponent_spec().is_threat(t),
        t != landing_index(p.mask, c),
    ensures
        p.play_spec(c).spec_can_win_next(),
{
    lemma_grid_bounds(p.mask);
    lemma_play_effect(p.mask, c);
    let q = p.play_spec(c);
    let ct = choose|ct: u64|
        ct < 7 && #[trigger] col_height(p.mask, ct) < 6 && t == 7 * ct + col_height(p.mask, ct);
    assert(ct != c);
    assert(colbits(q.mask, ct) == colbits(p.mask, ct));
    assert(landing_index(q.mask, ct) == t);
    lemma_completes_any(p.player ^ p.mask, t);
    assert(col_height(q.mask, ct) < 6 && wins(q.player | (1u64 << landing_index(q.mask, ct))));
}

/// Law: the non-losing move mask is empty exactly when every legal move
/// hands the opponent an immediately winning column on the very next ply.
pub proof fn lemma_losing_iff_empty(p: Position, r: u64)
    requires
        p.wf(),
        !wins(p.player ^ p.mask),
        non_losing_mask_spec(p, r),
    ensures
        r == 0 <==> (forall|c: u64|
            (c < 7 && #[trigger] col_height(p.mask, c) < 6) ==> p.play_spec(c).spec_can_win_next()),
{
    lemma_grid_bounds(p.mask);
    if r != 0 {
        // a safe move exists: the column of any bit of the mask
        crate::bitops::lemma_bit_ops();
        let i = crate::bitops::lemma_nonzero_bit(r);
        let ci = choose|ci: u64|
            ci < 7 && #[trigger] col_height(p.mask, ci) < 6 && i == 7 * ci + col_height(p.mask, ci);
        p.lemma_safe_play(ci);
        assert(!(p.play_spec(ci).spec_can_win_next()));
    } else {
        assert forall|c: u64| c < 7 && #[trigger] col_height(p.mask, c) < 6 implies p.play_spec(
            c,
        ).spec_can_win_next() by {
            crate::bitops::lemma_bit_ops();
            lemma_play_effect(p.mask, c);
            let i = landing_index(p.mask, c);
            let q = p.play_spec(c);
            if exists|f1: u64, f2: u64| f1 != f2 && #[trigger] p.forced(f1) && #[trigger] p.forced(
                f2,
            ) {
                let (f1, f2): (u64, u64) = choose|f1: u64, f2: u64|
                    f1 != f2 && #[trigger] p.forced(f1) && #[trigger] p.forced(f2);
                // two threats cannot both be the cell just played
                if f1 != i {
                    lemma_threat_persists(p, c, f1);
                } else {
                    lemma_threat_persists(p, c, f2);
                }
            } else {
                // the mask says this landing cell was excluded for a reason
                assert(!bit(r, i));
                assert(playable(p.mask, i));
                if p.opponent_spec().is_threat((i + 1) as u64) {
                    // the move opens the cell just above for the opponent
                    lemma_column_bits();
                    assert(bit(FULL_BOARD_MASK, (i + 1) as u64));
                    assert(i + 1 == 7 * c + (col_height(p.mask, c) + 1));
                    assert(col_height(p.mask, c) + 1 < 6);
                    assert(col_height(q.mask, c) == col_height(p.mask, c) + 1);
                    assert(landing_index(q.mask, c) == i + 1);
                    assert(!bit(p.mask, (i + 1) as u64));
                    lemma_completes_any(p.player ^ p.mask, (i + 1) as u64);
                    assert(col_height(q.mask, c) < 6 && wins(
                        q.player | (1u64 << landing_index(q.mask, c)),
                    ));
                } else {
                    // some forced cell elsewhere is left open
                    assert(!(forall|j: u64| #[trigger] p.forced(j) ==> j == i));
                    let j = choose|j: u64| #[trigger] p.forced(j) && j != i;
                    lemma_threat_persists(p, c, j);
                }
            }
        }
    }
}

/// One cell of the board, seen from the side to move.
#[derive(Clone, Copy, PartialEq, Eq, Structural, Debug)]
pub enum Cell {
    Empty,
    CurrentPlayer,
    OtherPlayer,
}

/// An immutable board position. `player` holds the stones of the side to
/// move, `mask` the stones of both sides, and `play_count` the number of
/// stones placed so far.
#[derive(Clone, Copy, PartialEq, Eq, Structural, Debug)]
pub struct Position {
    /// stones of the current player
    pub player: u64,
    /// stones of both players
    pub mask: u64,
    /// number of stones placed so far
    pub play_count: u64,
}

impl Position {
    /// The representation invariant: gravity holds of the occupied cells,
    /// the mover's stones sit on occupied cells, and the counter agrees
    /// with the board.
    pub open spec fn wf(self) -> bool {
        grid_wf(self.mask) && (self.player & self.mask) == self.player && self.play_count == stones(
            self.mask,
        )
    }

    /// What `at` returns for row `y` of column `x`.
    pub open spec fn cell_at(self, y: u64, x: u64) -> Cell {
        if !bit(self.mask, (7 * x + y) as u64) {
            Cell::Empty
        } else if bit(self.player, (7 * x + y) as u64) {
            Cell::CurrentPlayer
        } else {
            Cell::OtherPlayer
        }
    }

    /// The empty board.
    pub fn new() -> (r: Position)
        ensures
            r.wf(),
            r.player == 0,
            r.mask == 0,
            r.play_count == 0,
    {
        proof {
            lemma_mask_bits();
            assert(grid_wf(0u64));
            assert(stones(0u64) == 0);
        }
        Position { player: 0, mask: 0, play_count: 0 }
    }

    /// The same board seen from the other side: the stones of the side to
    /// move become those of the opponent.
    pub fn opponent(&self) -> (r: Position)
        requires
            self.wf(),
        ensures
            r.wf(),
            r.player == self.player ^ self.mask,
            r.mask == self.mask,
            r.play_count == self.play_count,
    {
        proof {
            lemma_mask_bits();
        }
        let mut p = self.clone();
        p.player = self.player ^ self.mask;
        p
    }

    /// A single bit at the bottom playable row of column `col_pos`.
    pub fn bottom_mask(col_pos: u64) -> (r: u64)
        requires
            col_pos < WIDTH,
        ensures
            r == (1u64 << ((7 * col_pos) as u64)),
    {
        1u64 << (col_pos * FULL_HEIGHT)
    }

    /// A single bit at the top playable row of column `col_pos`.
    pub fn top_mask(col_pos: u64) -> (r: u64)
        requires
            col_pos < WIDTH,
        ensures
            r == (1u64 << ((7 * col_pos + 5) as u64)),
    {
        1u64 << (col_pos * FULL_HEIGHT + (HEIGHT - 1))
    }

    /// All 7 bits of column `col_pos`, the sentinel row included.
    pub fn column_mask(col_pos: u64) -> (r: u64)
        requires
            col_pos < WIDTH,
        ensures
            r == (0x7fu64 << ((7 * col_pos) as u64)),
    {
        0b1111111u64 << (col_pos * FULL_HEIGHT)
    }

    /// True iff column `col_pos` still has room for a stone: it holds fewer
    /// than `HEIGHT` stones.
    pub fn is_valid_play(&self, col_pos: u64) -> (r: bool)
        requires
            self.wf(),
            col_pos < WIDTH,
        ensures
            r <==> col_height(self.mask, col_pos) < 6,
    {
        proof {
            lemma_column_bits();
            lemma_mask_bits();
            assert(is_run(colbits(self.mask, col_pos)));
            assert(bit(colbits(self.mask, col_pos), 5) <==> 5 < run_len(colbits(self.mask, col_pos)));
        }
        self.mask & Self::top_mask(col_pos) == 0
    }

    /// The position after the side to move drops a stone into column
    /// `col_pos`; the sides swap, so the new mover is the old opponent.
    pub fn play(&self, col_pos: u64) -> (r: Position)
        requires
            self.wf(),
            col_pos < WIDTH,
            col_height(self.mask, col_pos) < 6,
        ensures
            r.wf(),
            r.player == self.player ^ self.mask,
            r.mask == with_stone(self.mask, col_pos),
            r.play_count == self.play_count + 1,
            col_height(r.mask, col_pos) == col_height(self.mask, col_pos) + 1,
            forall|c: u64| c < 7 && c != col_pos ==> colbits(r.mask, c) == colbits(self.mask, c),
            !bit(self.mask, landing_index(self.mask, col_pos)),
            r == self.play_spec(col_pos),
    {
        proof {
            lemma_grid_bounds(self.mask);
            lemma_play_effect(self.mask, col_pos);
        }
        let mut p = self.opponent();
        p.mask = p.mask | (p.mask + Self::bottom_mask(col_pos));
        p.play_count = p.play_count + 1;
        proof {
            assert(p.mask == with_stone(self.mask, col_pos));
            assert((p.player & p.mask) == p.player) by {
                lemma_mask_bits();
            }
        }
        p
    }

    /// The key packs `player` and `mask` into one word; with gravity and
    /// `player` a subset of `mask`, no two positions share a key.
    pub fn key(&self) -> (r: u64)
        requires
            self.wf(),
        ensures
            r == self.player + self.mask,
            r == spec_key(*self),
            r < 0x4000000000000,
    {
        proof {
            lemma_mask_bits();
            assert(self.player <= self.mask);
            assert(self.mask < 0x2000000000000);
        }
        self.player + self.mask
    }

    /// True iff the board is completely full, with `WIDTH * HEIGHT` stones.
    pub fn is_draw(&self) -> (r: bool)
        requires
            self.wf(),
        ensures
            r <==> self.play_count == 42,
    {
        self.play_count == WIDTH * HEIGHT
    }

    /// What `play` returns, at the spec level.
    pub open spec fn play_spec(self, c: u64) -> Position {
        Position {
            player: self.player ^ self.mask,
            mask: with_stone(self.mask, c),
            play_count: (self.play_count + 1) as u64,
        }
    }

    /// The position as the opponent sees it, at the spec level.
    pub open spec fn opponent_spec(self) -> Position {
        Position { player: self.player ^ self.mask, mask: self.mask, play_count: self.play_count }
    }

    /// The side to move has a column it may play that wins at once.
    pub open spec fn spec_can_win_next(self) -> bool {
        exists|c: u64| c < 7 && #[trigger] col_height(self.mask, c) < 6 && wins(
            self.player | (1u64 << landing_index(self.mask, c)),
        )
    }

    /// Cell `i` is a winning cell of the side to move: an empty playable
    /// cell of the board that would complete four in a row of `player`,
    /// whether or not a stone can land there right now.
    pub open spec fn is_threat(self, i: u64) -> bool {
        bit(FULL_BOARD_MASK, i) && !bit(self.mask, i) && completes(self.player, i)
    }

    /// Cell `i` is a cell the mover is forced to occupy: a landing cell
    /// where the opponent would win at once.
    pub open spec fn forced(self, i: u64) -> bool {
        playable(self.mask, i) && self.opponent_spec().is_threat(i)
    }

    /// A landing cell that blocks every forced cell and does not sit just
    /// below an opponent winning cell is safe: after playing it the opponent
    /// has no immediately winning column. This is why the search may recurse
    /// on exactly the moves `possible_non_losing_play_mask` keeps.
    #[verifier::rlimit(100)]
    pub proof fn lemma_safe_play(self, c: u64)
        requires
            self.wf(),
            c < 7,
            col_height(self.mask, c) < 6,
            !wins(self.player ^ self.mask),
            !self.opponent_spec().is_threat((landing_index(self.mask, c) + 1) as u64),
            forall|j: u64| #[trigger] self.forced(j) ==> j == landing_index(self.mask, c),
        ensures
            !self.play_spec(c).spec_can_win_next(),
    {
        lemma_grid_bounds(self.mask);
        lemma_play_effect(self.mask, c);
        let q = self.play_spec(c);
        let o = self.player ^ self.mask;
        let i = landing_index(self.mask, c);
        if q.spec_can_win_next() {
            let c2 = choose|c2: u64|
                c2 < 7 && #[trigger] col_height(q.mask, c2) < 6 && wins(
                    q.player | (1u64 << landing_index(q.mask, c2)),
                );
            let h2 = col_height(q.mask, c2);
            let l2 = landing_index(q.mask, c2);
            assert(!bit(q.mask, l2)) by {
                lemma_column_bits();
                assert(is_run(colbits(q.mask, c2)));
                assert(!bit(colbits(q.mask, c2), h2));
            }
            assert(!bit(self.mask, l2)) by {
                lemma_bit_ops();
                assert(q.mask == (self.mask | (1u64 << landing_index(self.mask, c))));
            }
            assert(bit(FULL_BOARD_MASK, l2)) by {
                lemma_column_bits();
            }
            lemma_wins_after(o, l2);
            if c2 == c {
                assert(l2 == i + 1);
                assert(self.opponent_spec().is_threat((i + 1) as u64));
            } else {
                assert(colbits(q.mask, c2) == colbits(self.mask, c2));
                assert(playable(self.mask, l2));
                assert(self.opponent_spec().is_threat(l2));
                assert(self.forced(l2));
                assert(l2 == i);
                assert(false);
            }
        }
    }

    /// The number of winning cells of the side to move below index `n`.
    pub open spec fn count_threats_upto(self, n: u64) -> nat
        decreases n,
    {
        if n == 0 {
            0nat
        } else {
            self.count_threats_upto((n - 1) as u64) + if self.is_threat((n - 1) as u64) {
                1nat
            } else {
                0nat
            }
        }
    }

    /// The number of winning cells of the side to move.
    pub open spec fn count_threats(self) -> nat {
        self.count_threats_upto(64)
    }

    /// Whether `s` holds four in a row with step `d`: the word keeps a bit
    /// wherever the three next cells along the step are also held.
    fn has_four(s: u64, d: u64) -> (r: bool)
        requires
            1 <= d <= 8,
        ensures
            r <==> exists|j: u64| #[trigger] four_from(s, j, d),
    {
        let c = s & (s >> d) & (s >> (2 * d)) & (s >> (3 * d));
        proof {
            lemma_bit_ops();
            lemma_shift_bits();
            if c != 0 {
                let j = crate::bitops::lemma_nonzero_bit(c);
                assert(four_from(s, j, d));
            }
            if exists|j: u64| #[trigger] four_from(s, j, d) {
                let j = choose|j: u64| #[trigger] four_from(s, j, d);
                assert(j + 3 * d < 64);
                assert(bit(c, j));
            }
        }
        c != 0
    }

    /// True iff dropping a stone of the side to move into column `col_pos`
    /// makes four in a row for that side. The hypothetical stone mask is
    /// computed without mutating the position.
    pub fn is_winning_play(&self, col_pos: u64) -> (r: bool)
        requires
            self.wf(),
            col_pos < WIDTH,
            col_height(self.mask, col_pos) < 6,
        ensures
            r <==> wins(self.player | (1u64 << landing_index(self.mask, col_pos))),
    {
        proof {
            lemma_grid_bounds(self.mask);
            lemma_play_effect(self.mask, col_pos);
        }
        // the mover's stones with the hypothetical stone: adding the bottom
        // bit carries up to the lowest empty cell, and the column mask keeps
        // that single new bit
        let p = self.player | ((self.mask + Self::bottom_mask(col_pos)) & Self::column_mask(
            col_pos,
        ));
        Self::wins_exec(p)
    }

    /// Whether a stone set holds four in a row in any of the four
    /// directions.
    fn wins_exec(s: u64) -> (r: bool)
        ensures
            r == wins(s),
    {
        // vertical
        if Self::has_four(s, 1) {
            return true;
        }
        // horizontal
        if Self::has_four(s, FULL_HEIGHT) {
            return true;
        }
        // diagonal
        if Self::has_four(s, HEIGHT) {
            return true;
        }
        // anti diagonal
        if Self::has_four(s, HEIGHT + 2) {
            return true;
        }
        proof {
            if wins(s) {
                let (j, d): (u64, u64) = choose|j: u64, d: u64|
                    is_dir(d) && #[trigger] four_from(s, j, d);
            }
        }
        false
    }

    /// True iff the side that moved last (the opponent of the side to move)
    /// has already completed four in a row. The search is only defined on
    /// positions where play has not ended, so callers test this first.
    pub fn is_winning(&self) -> (r: bool)
        ensures
            r == wins(self.player ^ self.mask),
    {
        Self::wins_exec(self.player ^ self.mask)
    }

    /// True iff some column can be played and wins at once for the side to
    /// move.
    pub fn can_win_next(&self) -> (r: bool)
        requires
            self.wf(),
        ensures
            r == self.spec_can_win_next(),
    {
        let mut c: u64 = 0;
        while c < WIDTH
            invariant
                self.wf(),
                c <= 7,
                forall|c2: u64| c2 < c ==> !(#[trigger] col_height(self.mask, c2) < 6 && wins(
                    self.player | (1u64 << landing_index(self.mask, c2)),
                )),
            decreases 7 - c,
        {
            if self.is_valid_play(c) && self.is_winning_play(c) {
                return true;
            }
            c = c + 1;
        }
        false
    }

    /// The bits where the three other cells of a four-in-a-row of `s` with
    /// step `d` already stand. For the vertical step only the first shape
    /// (three stones below) can ever fire on a gravity board, but computing
    /// all four keeps the directions uniform.
    fn threats_dir(s: u64, d: u64) -> (r: u64)
        requires
            1 <= d <= 8,
            (s & FULL_BOARD_MASK) == s,
        ensures
            forall|i: u64| i < 64 ==> (#[trigger] bit(r, i) <==> completes_dir(s, i, d)),
    {
        let p1 = (s << d) & (s << (2 * d));
        let p2 = p1 >> (3 * d);
        let r = (p1 & (s << (3 * d))) | (p1 & (s >> d)) | (p2 & (s << d)) | (p2 & (s >> (3 * d)));
        proof {
            lemma_bit_ops();
            lemma_shift_bits();
            lemma_mask_bits();
            lemma_column_bits();
            assert forall|i: u64| i < 64 implies (#[trigger] bit(r, i) <==> completes_dir(
                s,
                i,
                d,
            )) by {
                assert forall|x: u64| #[trigger] bit(s, x) implies x < 49 by {
                    assert(bit(s & FULL_BOARD_MASK, x));
                    assert(bit(FULL_BOARD_MASK, x));
                    assert((FULL_BOARD_MASK >> 49) == 0) by (bit_vector);
                }
            }
        }
        r
    }

    /// The bitmask of all winning cells of the side to move: the empty
    /// playable cells that would complete four in a row of `player` if
    /// filled right now. A threat map, not a set of legal moves.
    pub fn winning_mask(&self) -> (r: u64)
        requires
            self.wf(),
        ensures
            forall|i: u64| #[trigger] bit(r, i) <==> self.is_threat(i),
    {
        proof {
            lemma_grid_bounds(self.mask);
            lemma_grid_on_board(self.mask);
            lemma_mask_bits();
            assert((self.player & FULL_BOARD_MASK) == self.player);
        }
        let v = Self::threats_dir(self.player, 1);
        let h = Self::threats_dir(self.player, FULL_HEIGHT);
        let d1 = Self::threats_dir(self.player, HEIGHT);
        let d2 = Self::threats_dir(self.player, HEIGHT + 2);
        // keep only cells that are on the board and not yet occupied
        let r = (v | h | d1 | d2) & (FULL_BOARD_MASK ^ self.mask);
        proof {
            lemma_bit_ops();
            assert forall|i: u64| #[trigger] bit(r, i) <==> self.is_threat(i) by {
                if i < 64 {
                    assert(bit(FULL_BOARD_MASK ^ self.mask, i) <==> (bit(FULL_BOARD_MASK, i)
                        && !bit(self.mask, i)));
                }
            }
        }
        r
    }

    /// The number of winning cells of the side to move, a move-ordering
    /// heuristic and never an exact evaluation.
    pub fn score(&self) -> (r: u64)
        requires
            self.wf(),
        ensures
            r == self.count_threats(),
    {
        let w = self.winning_mask();
        let c = crate::bitops::popcount(w);
        proof {
            self.lemma_threat_count(w, 64);
        }
        c as u64
    }

    /// Counting the bits of a word that marks exactly the winning cells
    /// counts the winning cells.
    proof fn lemma_threat_count(self, w: u64, n: u64)
        requires
            n <= 64,
            forall|i: u64| #[trigger] bit(w, i) <==> self.is_threat(i),
        ensures
            crate::bitops::count_bits_upto(w, n) == self.count_threats_upto(n),
        decreases n,
    {
        if n > 0 {
            self.lemma_threat_count(w, (n - 1) as u64);
        }
    }

    /// The bitmask of the lowest empty cell of every non-full column: the
    /// cells where a move can land right now.
    pub fn possible(&self) -> (r: u64)
        requires
            self.wf(),
        ensures
            forall|i: u64| #[trigger] bit(r, i) <==> playable(self.mask, i),
            (r >> 49) == 0,
    {
        proof {
            lemma_possible_effect(self.mask);
        }
        let r = (self.mask + FULL_BOTTOM_MASK) & FULL_BOARD_MASK;
        proof {
            lemma_possible_bits(self.mask, r);
        }
        r
    }

    /// The landing cells that do not hand the opponent an immediate win.
    /// If the opponent threatens two or more landing cells at once the
    /// position is lost whatever is played and the result is empty; one
    /// such threat forces the mover to block it; and a cell directly below
    /// an opponent threat is excluded, since playing it opens that threat.
    /// The result is empty exactly when every legal move loses at once.
    pub fn possible_non_losing_play_mask(&self) -> (r: u64)
        requires
            self.wf(),
        ensures
            non_losing_mask_spec(*self, r),
    {
        proof {
            lemma_bit_ops();
            lemma_shift_bits();
        }
        let mut possible_mask = self.possible();
        let opponent_win_mask = self.opponent().winning_mask();
        // the cells the mover is forced to occupy to block the opponent
        let forced_moves = possible_mask & opponent_win_mask;
        proof {
            assert(forall|i: u64| #[trigger] bit(forced_moves, i) <==> self.forced(i));
        }
        if forced_moves != 0 {
            if crate::bitops::popcount(forced_moves) > 1 {
                // at least two forced cells: lost whatever is played
                proof {
                    let (i, j) = crate::bitops::lemma_count_ge2_two_bits(forced_moves);
                    assert(self.forced(i) && self.forced(j));
                }
                return 0u64;
            } else {
                proof {
                    assert forall|i: u64, j: u64|
                        #[trigger] self.forced(i) && #[trigger] self.forced(j) implies i == j by {
                        crate::bitops::lemma_count_le1_unique(forced_moves, i, j);
                    }
                }
                possible_mask = forced_moves;  // forced to play the blocking move
            }
        } else {
            proof {
                assert forall|j: u64| #[trigger] self.forced(j) implies false by {
                    assert(bit(forced_moves, j));
                }
            }
        }
        // remove the cells directly below an opponent winning cell
        let r = possible_mask & !(opponent_win_mask >> 1);
        proof {
            if exists|i: u64, j: u64|
                i != j && #[trigger] self.forced(i) && #[trigger] self.forced(j) {
                let (i, j): (u64, u64) = choose|i: u64, j: u64|
                    i != j && #[trigger] self.forced(i) && #[trigger] self.forced(j);
                crate::bitops::lemma_two_bits_count(forced_moves, if i < j {
                    i
                } else {
                    j
                }, if i < j {
                    j
                } else {
                    i
                });
            }
            assert forall|i: u64| i < 64 implies (#[trigger] bit(r, i) <==> (bit(possible_mask, i)
                && !self.opponent_spec().is_threat((i + 1) as u64))) by {}
            if forced_moves != 0 {
                let f = crate::bitops::lemma_nonzero_bit(forced_moves);
                assert(self.forced(f));
            }
        }
        r
    }

    /// The position reached by replaying `plays` from the empty board.
    /// Every move must land in a column that exists and still has room;
    /// overfilling a column is a programming error, ruled out here rather
    /// than detected at run time.
    pub fn from_plays(plays: &[u64]) -> (r: Position)
        requires
            replay_valid(plays@),
        ensures
            r == replay(plays@),
            r.wf(),
    {
        let mut p = Position::new();
        let mut i: usize = 0;
        proof {
            assert(plays@.subrange(0, 0) =~= Seq::<u64>::empty());
        }
        while i < plays.len()
            invariant
                i <= plays.len(),
                replay_valid(plays@),
                p == replay(plays@.subrange(0, i as int)),
                p.wf(),
            decreases plays.len() - i,
        {
            proof {
                lemma_replay_valid_prefix(plays@, i + 1);
                assert(plays@.subrange(0, i + 1).drop_last() =~= plays@.subrange(0, i as int));
                assert(plays@.subrange(0, i + 1).last() == plays@[i as int]);
            }
            let c = plays[i];
            p = p.play(c);
            i = i + 1;
        }
        proof {
            assert(plays@.subrange(0, plays@.len() as int) =~= plays@);
        }
        p
    }

    /// The position denoted by a string of decimal digits, each naming one
    /// column (1-based) of a move list replayed from the empty board. Fails
    /// on the first character that is not a digit in range, and on the
    /// first move that would land in an already-full column, carrying the
    /// offending character or column.
    pub fn parse(s: &str) -> (r: Result<Position, ParseError>)
        ensures
            r is Ok <==> ((forall|k: int| 0 <= k < s@.len() ==> good_char(#[trigger] s@[k]))
                && replay_valid(digit_cols(s@))),
            r matches Ok(p) ==> p == replay(digit_cols(s@)) && p.wf(),
            r matches Err(ParseError::BadChar { ch }) ==> !good_char(ch) && exists|k: int|
                0 <= k < s@.len() && s@[k] == ch && (forall|j: int|
                0 <= j < k ==> good_char(#[trigger] s@[j])),
            r matches Err(ParseError::FullColumn { col }) ==> exists|k: int|
                0 <= k < s@.len() && (forall|j: int| 0 <= j <= k ==> good_char(#[trigger] s@[j]))
                    && col_of_char(s@[k]) == col && col_height(
                    replay(digit_cols(s@.subrange(0, k))).mask,
                    col,
                ) == 6 && replay_valid(digit_cols(s@.subrange(0, k))),
    {
        let n = s.unicode_len();
        let mut p = Position::new();
        let mut i: usize = 0;
        proof {
            assert(digit_cols(s@.subrange(0, 0)) =~= Seq::<u64>::empty());
        }
        while i < n
            invariant
                i <= n,
                n == s@.len(),
                forall|j: int| 0 <= j < i ==> good_char(#[trigger] s@[j]),
                replay_valid(digit_cols(s@.subrange(0, i as int))),
                p == replay(digit_cols(s@.subrange(0, i as int))),
                p.wf(),
            decreases n - i,
        {
            let ch = s.get_char(i);
            let col: u64 = if ch == '1' {
                0
            } else if ch == '2' {
                1
            } else if ch == '3' {
                2
            } else if ch == '4' {
                3
            } else if ch == '5' {
                4
            } else if ch == '6' {
                5
            } else if ch == '7' {
                6
            } else {
                7
            };
            if col >= WIDTH {
                return Err(ParseError::BadChar { ch });
            }
            proof {
                assert(digit_cols(s@.subrange(0, i + 1)).drop_last() =~= digit_cols(
                    s@.subrange(0, i as int),
                ));
                assert(digit_cols(s@.subrange(0, i + 1)).last() == col);
            }
            if !p.is_valid_play(col) {
                proof {
                    if (forall|k: int| 0 <= k < s@.len() ==> good_char(#[trigger] s@[k]))
                        && replay_valid(digit_cols(s@)) {
                        lemma_replay_valid_prefix(digit_cols(s@), i + 1);
                        assert(digit_cols(s@).subrange(0, i + 1) =~= digit_cols(
                            s@.subrange(0, i + 1),
                        ));
                    }
                }
                return Err(ParseError::FullColumn { col });
            }
            p = p.play(col);
            i = i + 1;
        }
        proof {
            assert(s@.subrange(0, i as int) =~= s@);
        }
        Ok(p)
    }

    /// The cell at row `y` of column `x`, seen from the side to move.
    pub fn at(&self, y: u64, x: u64) -> (r: Cell)
        requires
            y < FULL_HEIGHT,
            x < WIDTH,
        ensures
            r == self.cell_at(y, x),
    {
        proof {
            lemma_mask_bits();
            assert(7 * x + y < 49);
        }
        let pos_mask = 1u64 << (x * FULL_HEIGHT + y);
        if self.mask & pos_mask == 0 {
            return Cell::Empty;
        }
        if self.player & pos_mask != 0 {
            return Cell::CurrentPlayer;
        }
        Cell::OtherPlayer
    }
}

} // verus!
