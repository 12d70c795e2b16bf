use crate::game::{GameState, Player, OUTCOME_SCALE};
use crate::utils::{decimal_usize, opposite_player, parse_usize, trimmed};
use vstd::prelude::*;

verus! {

/// Playable rows of a column.
pub const ROWS: u8 = 6;

/// Columns of the board.
pub const COLS: u8 = 7;

/// Bits per column: the playable rows and one sentinel bit above them.
pub const BITS_PER_COL: u8 = 7;

/// Discs in a row that win.
pub const WIN_LENGTH: u8 = 4;

/// Connect Four on two 64-bit boards.
///
/// Column `c` takes bits `7 * c .. 7 * c + 6`: six playable rows from the
/// bottom up and a sentinel bit that no disc ever sets; row `r` of column `c`
/// is bit `7 * c + r`.  `player_bb` holds Player1's discs, `mask_bb` all
/// discs, so Player2's are `mask_bb ^ player_bb`.  `heights[c]` is the number
/// of discs in column `c`.
#[derive(Clone, Copy, Debug)]
pub struct BitboardState {
    /// Player1's discs.
    pub player_bb: u64,
    /// All discs.
    pub mask_bb: u64,
    /// Discs per column.
    pub heights: [u8; 7],
    /// The player whose turn it is.
    pub current_player: Player,
}

/// Bit `i` of `bb` is set.
pub open spec fn bit_set(bb: u64, i: int) -> bool {
    0 <= i < 64 && (bb >> (i as u64)) & 1 == 1
}

/// The bit of row `row` in column `col`.
pub open spec fn cell_index(row: int, col: int) -> int {
    col * 7 + row
}

/// Four set bits of `bb` at `i`, `i + step`, `i + 2 * step`, `i + 3 * step`.
pub open spec fn run_at(bb: u64, step: int, i: int) -> bool {
    bit_set(bb, i) && bit_set(bb, i + step) && bit_set(bb, i + 2 * step) && bit_set(
        bb,
        i + 3 * step,
    )
}

/// Four set bits of `bb` at a stride of `step`.
pub open spec fn has_run(bb: u64, step: int) -> bool {
    exists|i: int| 0 <= i < 64 && #[trigger] run_at(bb, step, i)
}

/// Four in a row on `bb`: up a column (stride 1), along a row (stride 7), or
/// along either diagonal (strides 8 and 6).
pub open spec fn has_four(bb: u64) -> bool {
    has_run(bb, 1) || has_run(bb, 7) || has_run(bb, 8) || has_run(bb, 6)
}

/// The heights are those of a board: no column over six discs.
pub open spec fn heights_ok(heights: Seq<u8>) -> bool {
    heights.len() == 7 && forall|c: int| 0 <= c < 7 ==> #[trigger] heights[c] <= 6
}

/// `mask` holds exactly the cells below each column's height.
pub open spec fn mask_matches(mask: u64, heights: Seq<u8>) -> bool {
    forall|i: int|
        0 <= i < 64 ==> (#[trigger] bit_set(mask, i) <==> (i < 49 && i % 7 < heights[i / 7]))
}

/// Every column holds six discs.
pub open spec fn all_full(heights: Seq<u8>) -> bool {
    forall|c: int| 0 <= c < 7 ==> #[trigger] heights[c] == 6
}

/// Empty cells in the first `n` columns.
pub open spec fn free_cells(heights: Seq<u8>, n: nat) -> int
    decreases n,
{
    if n == 0 {
        0
    } else {
        free_cells(heights, (n - 1) as nat) + (6 - heights[n - 1])
    }
}

/// The columns among the first `n` that still take a disc, in order.
pub open spec fn open_columns(heights: Seq<u8>, n: nat) -> Seq<u8>
    decreases n,
{
    if n == 0 {
        seq![]
    } else {
        let prev = open_columns(heights, (n - 1) as nat);
        if heights[n - 1] < 6 {
            prev.push((n - 1) as u8)
        } else {
            prev
        }
    }
}

/// The bit where the next disc of column `col` lands.
pub open spec fn landing_bit(heights: Seq<u8>, col: int) -> u64 {
    1u64 << ((col * 7 + heights[col]) as u64)
}

/// Bit `i` of `m` with bit `q` added.
proof fn lemma_or_bit_at(m: u64, q: u64, i: u64)
    by (bit_vector)
    requires
        q < 64,
        i < 64,
    ensures
        ((m | (1u64 << q)) >> i) & 1 == 1 <==> ((m >> i) & 1 == 1 || i == q),
{
}

/// Bit `i` of `a & b`.
proof fn lemma_and_bit_at(a: u64, b: u64, i: u64)
    by (bit_vector)
    requires
        i < 64,
    ensures
        ((a & b) >> i) & 1 == 1 <==> ((a >> i) & 1 == 1 && (b >> i) & 1 == 1),
{
}

/// A non-zero word has a set bit at or above `k` when its bits from `k` on
/// are not all clear.
proof fn lemma_nonzero_has_bit(y: u64, k: u64)
    requires
        k < 64,
        y >> k != 0,
    ensures
        exists|i: int| k <= i < 64 && bit_set(y, i),
    decreases 64 - k,
{
    if (y >> k) & 1 == 1 {
        assert(bit_set(y, k as int));
    } else {
        assert((y >> k) != 0 && (y >> k) & 1 != 1 ==> k < 63 && (y >> ((k + 1) as u64)) != 0)
            by (bit_vector)
            requires
                k < 64,
        ;
        lemma_nonzero_has_bit(y, (k + 1) as u64);
    }
}

/// The shift-and-mask test finds exactly the runs of four at stride `s`.
proof fn lemma_run_test(bb: u64, s: u64)
    requires
        1 <= s <= 8,
    ensures
        ((bb & (bb >> s)) & ((bb & (bb >> s)) >> ((2 * s) as u64)) != 0) == has_run(bb, s as int),
{
    let y = (bb & (bb >> s)) & ((bb & (bb >> s)) >> ((2 * s) as u64));
    assert(forall|i: u64|
        i < 64 ==> (((y >> i) & 1 == 1) <==> ((bb >> i) & 1 == 1 && (bb >> ((i + s) as u64)) & 1 == 1
            && (bb >> ((i + 2 * s) as u64)) & 1 == 1 && (bb >> ((i + 3 * s) as u64)) & 1 == 1)))
        by (bit_vector)
        requires
            1 <= s <= 8,
            y == (bb & (bb >> s)) & ((bb & (bb >> s)) >> ((2 * s) as u64)),
    ;
    assert(forall|j: u64| j >= 64 ==> (bb >> j) & 1 != 1) by (bit_vector);
    assert(forall|i: u64| i < 64 && (y >> i) & 1 == 1 ==> y != 0) by (bit_vector);
    if y != 0 {
        assert(y >> 0 == y) by (bit_vector);
        lemma_nonzero_has_bit(y, 0);
        let i = choose|i: int| 0 <= i < 64 && bit_set(y, i);
        assert(run_at(bb, s as int, i));
    }
    if has_run(bb, s as int) {
        let i = choose|i: int| 0 <= i < 64 && #[trigger] run_at(bb, s as int, i);
        assert((y >> (i as u64)) & 1 == 1);
    }
}

/// Four in a row at stride `shift` on `bb`.
fn has_run_exec(bb: u64, shift: u8) -> (r: bool)
    requires
        1 <= shift <= 8,
    ensures
        r == has_run(bb, shift as int),
{
    let s = shift as u64;
    let x = bb & (bb >> s);
    proof {
        lemma_run_test(bb, s);
    }
    (x & (x >> (2 * s))) != 0
}

/// Number of set bits of `x` below bit `n`.
pub open spec fn ones_below(x: u64, n: nat) -> int
    decreases n,
{
    if n == 0 {
        0
    } else {
        ones_below(x, (n - 1) as nat) + if bit_set(x, n - 1) {
            1int
        } else {
            0
        }
    }
}

/// How many of `cells` hold a disc on `bb`.
pub open spec fn chips(bb: u64, cells: Seq<int>) -> int
    decreases cells.len(),
{
    if cells.len() == 0 {
        0
    } else {
        chips(bb, cells.drop_last()) + if bit_set(bb, cells.last()) {
            1int
        } else {
            0
        }
    }
}

/// How many of `cells` below bit `n` hold a disc on `bb`.
pub open spec fn chips_below(bb: u64, cells: Seq<int>, n: int) -> int
    decreases cells.len(),
{
    if cells.len() == 0 {
        0
    } else {
        chips_below(bb, cells.drop_last(), n) + if cells.last() < n && bit_set(bb, cells.last()) {
            1int
        } else {
            0
        }
    }
}

/// The four cells of the line that starts at `(row, col)` and steps by
/// `(dr, dc)`.
pub open spec fn window_cells(row: int, col: int, dr: int, dc: int) -> Seq<int> {
    seq![
        cell_index(row, col),
        cell_index(row + dr, col + dc),
        cell_index(row + 2 * dr, col + 2 * dc),
        cell_index(row + 3 * dr, col + 3 * dc),
    ]
}

/// The score of a line of four holding `n1` discs of Player1 and `n2` of
/// Player2: a line only one side has entered counts for that side.
pub open spec fn window_value(n1: int, n2: int) -> int {
    if n1 == 4 && n2 == 0 {
        100000
    } else if n1 == 3 && n2 == 0 {
        100
    } else if n1 == 2 && n2 == 0 {
        10
    } else if n1 == 0 && n2 == 2 {
        -10
    } else if n1 == 0 && n2 == 3 {
        -100
    } else if n1 == 0 && n2 == 4 {
        -100000
    } else {
        0
    }
}

/// The score of the line of four on `cells`.
pub open spec fn window_score(p1: u64, p2: u64, cells: Seq<int>) -> int {
    window_value(chips(p1, cells), chips(p2, cells))
}

/// The scores of the lines of column `col` starting at rows `row_lo` up to
/// `row_hi` (exclusive), stepping by `(dr, dc)`.
pub open spec fn column_windows(
    p1: u64,
    p2: u64,
    dr: int,
    dc: int,
    col: int,
    row_lo: int,
    row_hi: int,
) -> int
    decreases row_hi - row_lo,
{
    if row_hi <= row_lo {
        0
    } else {
        column_windows(p1, p2, dr, dc, col, row_lo, row_hi - 1) + window_score(
            p1,
            p2,
            window_cells(row_hi - 1, col, dr, dc),
        )
    }
}

/// The scores of the lines stepping by `(dr, dc)` that start in the first
/// `ncols` columns, at rows `row_lo` up to `row_hi` (exclusive).
pub open spec fn direction_windows(
    p1: u64,
    p2: u64,
    dr: int,
    dc: int,
    row_lo: int,
    row_hi: int,
    ncols: int,
) -> int
    decreases ncols,
{
    if ncols <= 0 {
        0
    } else {
        direction_windows(p1, p2, dr, dc, row_lo, row_hi, ncols - 1) + column_windows(
            p1,
            p2,
            dr,
            dc,
            ncols - 1,
            row_lo,
            row_hi,
        )
    }
}

/// The scores of all 69 lines of four: along rows, up columns, and along both
/// diagonals.
pub open spec fn all_windows(p1: u64, p2: u64) -> int {
    direction_windows(p1, p2, 0, 1, 0, 6, 4) + direction_windows(p1, p2, 1, 0, 0, 3, 7)
        + direction_windows(p1, p2, 1, 1, 0, 3, 4) + direction_windows(p1, p2, -1, 1, 3, 6, 4)
}

/// The cells that `(row, column)` pairs name.
pub open spec fn coord_cells(coords: Seq<(u8, u8)>) -> Seq<int> {
    Seq::new(coords.len(), |k: int| cell_index(coords[k].0 as int, coords[k].1 as int))
}

/// The weight of a column: 3, 4, 5, 7, 5, 4, 3 from left to right.
pub open spec fn column_weight(col: int) -> int {
    if col == 3 {
        7
    } else if col == 2 || col == 4 {
        5
    } else if col == 1 || col == 5 {
        4
    } else {
        3
    }
}

/// The six playable cells of column `col`.
pub open spec fn column_cells(col: int) -> Seq<int> {
    Seq::new(6, |r: int| cell_index(r, col))
}

/// Centre control over the first `ncols` columns: each column's weight times
/// Player1's discs there less Player2's.
pub open spec fn center_score(p1: u64, p2: u64, ncols: int) -> int
    decreases ncols,
{
    if ncols <= 0 {
        0
    } else {
        center_score(p1, p2, ncols - 1) + column_weight(ncols - 1) * (chips(
            p1,
            column_cells(ncols - 1),
        ) - chips(p2, column_cells(ncols - 1)))
    }
}

/// The count of set bits over all 64 bits.
fn count_ones(x: u64) -> (r: u32)
    ensures
        r == ones_below(x, 64),
{
    let mut c: u32 = 0;
    let mut i: u64 = 0;
    while i < 64
        invariant
            i <= 64,
            c == ones_below(x, i as nat),
            c <= i,
        decreases 64 - i,
    {
        let b = (x >> i) & 1;
        assert(b == 0 || b == 1) by (bit_vector)
            requires
                b == (x >> i) & 1,
        ;
        c += b as u32;
        i += 1;
    }
    c
}

/// `chips` counts the cells it is given that are set.
proof fn lemma_chips_range(bb: u64, cells: Seq<int>)
    ensures
        0 <= chips(bb, cells) <= cells.len(),
        chips(bb, cells) == cells.len() ==> forall|k: int|
            0 <= k < cells.len() ==> bit_set(bb, #[trigger] cells[k]),
    decreases cells.len(),
{
    if cells.len() > 0 {
        lemma_chips_range(bb, cells.drop_last());
        if chips(bb, cells) == cells.len() {
            assert forall|k: int| 0 <= k < cells.len() implies bit_set(bb, #[trigger] cells[k]) by {
                if k < cells.len() - 1 {
                    assert(cells.drop_last()[k] == cells[k]);
                }
            }
        }
    }
}

/// Counting only below bit 64 misses none of a set of bits.
proof fn lemma_chips_below_all(bb: u64, cells: Seq<int>)
    requires
        forall|k: int| 0 <= k < cells.len() ==> 0 <= #[trigger] cells[k] < 64,
    ensures
        chips_below(bb, cells, 64) == chips(bb, cells),
    decreases cells.len(),
{
    if cells.len() > 0 {
        lemma_chips_below_all(bb, cells.drop_last());
    }
}

/// Raising the bound by one adds the cell at it, if listed and set.
proof fn lemma_chips_below_step(bb: u64, cells: Seq<int>, n: int)
    requires
        forall|a: int, b: int| 0 <= a < b < cells.len() ==> cells[a] != cells[b],
    ensures
        chips_below(bb, cells, n + 1) == chips_below(bb, cells, n) + if cells.contains(n)
            && bit_set(bb, n) {
            1int
        } else {
            0
        },
    decreases cells.len(),
{
    if cells.len() > 0 {
        let d = cells.drop_last();
        lemma_chips_below_step(bb, d, n);
        if cells.last() == n {
            assert(!d.contains(n));
        } else {
            assert(cells.contains(n) == d.contains(n)) by {
                if cells.contains(n) {
                    let k = choose|k: int| 0 <= k < cells.len() && cells[k] == n;
                    assert(d[k] == n);
                }
                if d.contains(n) {
                    let k = choose|k: int| 0 <= k < d.len() && d[k] == n;
                    assert(cells[k] == n);
                }
            }
        }
    }
}

/// Where `mask` has exactly the bits of `cells`, the set bits of
/// `mask & bb` count the cells held on `bb`.
proof fn lemma_masked_count(mask: u64, bb: u64, cells: Seq<int>)
    requires
        forall|a: int, b: int| 0 <= a < b < cells.len() ==> cells[a] != cells[b],
        forall|k: int| 0 <= k < cells.len() ==> 0 <= #[trigger] cells[k] < 64,
        forall|i: int| 0 <= i < 64 ==> (#[trigger] bit_set(mask, i) <==> cells.contains(i)),
    ensures
        ones_below(mask & bb, 64) == chips(bb, cells),
{
    assert forall|n: nat| n <= 64 implies ones_below(mask & bb, n) == chips_below(
        bb,
        cells,
        n as int,
    ) by {
        lemma_masked_count_upto(mask, bb, cells, n);
    }
    lemma_chips_below_all(bb, cells);
}

proof fn lemma_masked_count_upto(mask: u64, bb: u64, cells: Seq<int>, n: nat)
    requires
        n <= 64,
        forall|a: int, b: int| 0 <= a < b < cells.len() ==> cells[a] != cells[b],
        forall|k: int| 0 <= k < cells.len() ==> 0 <= #[trigger] cells[k],
        forall|i: int| 0 <= i < 64 ==> (#[trigger] bit_set(mask, i) <==> cells.contains(i)),
    ensures
        ones_below(mask & bb, n) == chips_below(bb, cells, n as int),
    decreases n,
{
    if n == 0 {
        lemma_chips_below_zero(bb, cells);
    } else {
        lemma_masked_count_upto(mask, bb, cells, (n - 1) as nat);
        lemma_chips_below_step(bb, cells, n - 1);
        lemma_and_bit_at(mask, bb, (n - 1) as u64);
        assert(bit_set(mask & bb, n - 1) <==> (bit_set(mask, n - 1) && bit_set(bb, n - 1)));
        assert(bit_set(mask, n - 1) <==> cells.contains(n - 1));
    }
}

proof fn lemma_chips_below_zero(bb: u64, cells: Seq<int>)
    requires
        forall|k: int| 0 <= k < cells.len() ==> 0 <= #[trigger] cells[k],
    ensures
        chips_below(bb, cells, 0) == 0,
    decreases cells.len(),
{
    if cells.len() > 0 {
        lemma_chips_below_zero(bb, cells.drop_last());
    }
}

/// No bit of zero is set.
proof fn lemma_zero_bits()
    ensures
        forall|i: int| 0 <= i < 64 ==> !#[trigger] bit_set(0u64, i),
{
    assert(forall|j: u64| (0u64 >> j) & 1 != 1) by (bit_vector);
}

/// Every line of four scores at most 100000 either way.
proof fn lemma_window_value_range(n1: int, n2: int)
    ensures
        -100000 <= window_value(n1, n2) <= 100000,
        n1 != 4 && n2 != 4 ==> -100 <= window_value(n1, n2) <= 100,
{
}

/// A column's line scores add up to at most `bound` per line.
proof fn lemma_column_windows_bound(
    p1: u64,
    p2: u64,
    dr: int,
    dc: int,
    col: int,
    row_lo: int,
    row_hi: int,
    bound: int,
)
    requires
        0 <= bound,
        row_lo <= row_hi,
        forall|r: int|
            row_lo <= r < row_hi ==> -bound <= #[trigger] window_score(
                p1,
                p2,
                window_cells(r, col, dr, dc),
            ) <= bound,
    ensures
        -(bound * (row_hi - row_lo)) <= column_windows(p1, p2, dr, dc, col, row_lo, row_hi)
            <= bound * (row_hi - row_lo),
    decreases row_hi - row_lo,
{
    if row_hi > row_lo {
        lemma_column_windows_bound(p1, p2, dr, dc, col, row_lo, row_hi - 1, bound);
        assert(bound * (row_hi - row_lo) == bound * (row_hi - 1 - row_lo) + bound)
            by (nonlinear_arith);
        let w = window_score(p1, p2, window_cells(row_hi - 1, col, dr, dc));
        assert(-bound <= w <= bound);
    }
}

/// A direction's line scores add up to at most `bound` per line, six lines
/// per column at most.
proof fn lemma_direction_windows_bound(
    p1: u64,
    p2: u64,
    dr: int,
    dc: int,
    row_lo: int,
    row_hi: int,
    ncols: int,
    bound: int,
)
    requires
        0 <= bound,
        row_lo <= row_hi <= row_lo + 6,
        0 <= ncols,
        forall|r: int, c: int|
            row_lo <= r < row_hi && 0 <= c < ncols ==> -bound <= #[trigger] window_score(
                p1,
                p2,
                window_cells(r, c, dr, dc),
            ) <= bound,
    ensures
        -(bound * 6 * ncols) <= direction_windows(p1, p2, dr, dc, row_lo, row_hi, ncols) <= bound
            * 6 * ncols,
    decreases ncols,
{
    if ncols > 0 {
        lemma_direction_windows_bound(p1, p2, dr, dc, row_lo, row_hi, ncols - 1, bound);
        lemma_column_windows_bound(p1, p2, dr, dc, ncols - 1, row_lo, row_hi, bound);
        assert(bound * (row_hi - row_lo) <= bound * 6) by (nonlinear_arith)
            requires
                0 <= bound,
                row_hi - row_lo <= 6,
        ;
        assert(bound * 6 * ncols == bound * 6 * (ncols - 1) + bound * 6) by (nonlinear_arith);
    }
}

/// Every line scores at most 100000 either way.
proof fn lemma_all_window_scores(p1: u64, p2: u64, dr: int, dc: int)
    ensures
        forall|r: int, c: int|
            -100000 <= #[trigger] window_score(p1, p2, window_cells(r, c, dr, dc)) <= 100000,
{
    assert forall|r: int, c: int|
        -100000 <= #[trigger] window_score(p1, p2, window_cells(r, c, dr, dc)) <= 100000 by {
        lemma_window_value_range(
            chips(p1, window_cells(r, c, dr, dc)),
            chips(p2, window_cells(r, c, dr, dc)),
        );
    }
}

/// The cells of a line on the board are distinct bits below 49, `step` apart.
proof fn lemma_window_cells_ok(row: int, col: int, dr: int, dc: int)
    requires
        0 <= row < 6,
        0 <= row + 3 * dr < 6,
        0 <= col,
        col + 3 * dc < 7,
        0 <= dc <= 1,
        -1 <= dr <= 1,
        dr != 0 || dc != 0,
    ensures
        window_cells(row, col, dr, dc).len() == 4,
        forall|a: int, b: int|
            0 <= a < b < 4 ==> window_cells(row, col, dr, dc)[a] != window_cells(
                row,
                col,
                dr,
                dc,
            )[b],
        forall|k: int| 0 <= k < 4 ==> 0 <= #[trigger] window_cells(row, col, dr, dc)[k] < 49,
        window_cells(row, col, dr, dc)[1] == cell_index(row, col) + (dr + 7 * dc),
        window_cells(row, col, dr, dc)[2] == cell_index(row, col) + 2 * (dr + 7 * dc),
        window_cells(row, col, dr, dc)[3] == cell_index(row, col) + 3 * (dr + 7 * dc),
{
    let w = window_cells(row, col, dr, dc);
    assert forall|k: int| 0 <= k < 4 implies 0 <= #[trigger] w[k] < 49 by {
        if k == 0 {
        } else if k == 1 {
        } else if k == 2 {
        } else {
        }
    }
    assert forall|a: int, b: int| 0 <= a < b < 4 implies w[a] != w[b] by {
        if a == 0 {
        } else if a == 1 {
        } else {
        }
    }
}

/// The `(row, column)` pairs of a line on the board name its cells.
proof fn lemma_window_coords(coords: [(u8, u8); 4], row: int, col: int, dr: int, dc: int)
    requires
        0 <= row < 6,
        0 <= row + 3 * dr < 6,
        0 <= col,
        col + 3 * dc < 7,
        0 <= dc <= 1,
        -1 <= dr <= 1,
        dr != 0 || dc != 0,
        coords@[0].0 == row && coords@[0].1 == col,
        coords@[1].0 == row + dr && coords@[1].1 == col + dc,
        coords@[2].0 == row + 2 * dr && coords@[2].1 == col + 2 * dc,
        coords@[3].0 == row + 3 * dr && coords@[3].1 == col + 3 * dc,
    ensures
        forall|k: int| 0 <= k < 4 ==> #[trigger] coords@[k].0 < 6 && coords@[k].1 < 7,
        coord_cells(coords@) == window_cells(row, col, dr, dc),
{
    let cells = window_cells(row, col, dr, dc);
    assert forall|k: int| 0 <= k < 4 implies #[trigger] coords@[k].0 < 6 && coords@[k].1 < 7
        && cell_index(coords@[k].0 as int, coords@[k].1 as int) == cells[k] by {
        if k == 0 {
        } else if k == 1 {
        } else if k == 2 {
        } else {
        }
    }
    assert(coord_cells(coords@) =~= cells);
}

/// One line of a direction scan: its mask counts the line's discs, and the
/// running sums up to and including it stay within 100000 per line.
proof fn lemma_scan_step(
    p1: u64,
    p2: u64,
    mask: u64,
    row: int,
    col: int,
    dr: int,
    dc: int,
    row_lo: int,
    row_hi: int,
)
    requires
        0 <= row < 6,
        0 <= row + 3 * dr < 6,
        0 <= col,
        col + 3 * dc < 7,
        0 <= dc <= 1,
        -1 <= dr <= 1,
        dr != 0 || dc != 0,
        row_lo <= row < row_hi <= row_lo + 6,
        forall|i: int|
            0 <= i < 64 ==> (#[trigger] bit_set(mask, i) <==> window_cells(
                row,
                col,
                dr,
                dc,
            ).contains(i)),
    ensures
        ones_below(mask & p1, 64) == chips(p1, window_cells(row, col, dr, dc)),
        ones_below(mask & p2, 64) == chips(p2, window_cells(row, col, dr, dc)),
        -4200000 <= direction_windows(p1, p2, dr, dc, row_lo, row_hi, col) + column_windows(
            p1,
            p2,
            dr,
            dc,
            col,
            row_lo,
            row + 1,
        ) <= 4200000,
        column_windows(p1, p2, dr, dc, col, row_lo, row + 1) == column_windows(
            p1,
            p2,
            dr,
            dc,
            col,
            row_lo,
            row,
        ) + window_score(p1, p2, window_cells(row, col, dr, dc)),
{
    let cells = window_cells(row, col, dr, dc);
    lemma_window_cells_ok(row, col, dr, dc);
    lemma_masked_count(mask, p1, cells);
    lemma_masked_count(mask, p2, cells);
    lemma_all_window_scores(p1, p2, dr, dc);
    lemma_direction_windows_bound(p1, p2, dr, dc, row_lo, row_hi, col, 100000);
    lemma_column_windows_bound(p1, p2, dr, dc, col, row_lo, row + 1, 100000);
    assert(100000 * 6 * col <= 3600000) by (nonlinear_arith)
        requires
            0 <= col < 7,
    ;
}

/// On a board where nobody has four in a row, a line scores at most 100.
proof fn lemma_live_window(p1: u64, p2: u64, row: int, col: int, dr: int, dc: int)
    requires
        !has_four(p1),
        !has_four(p2),
        0 <= row < 6,
        0 <= row + 3 * dr < 6,
        0 <= col,
        col + 3 * dc < 7,
        (dr == 0 && dc == 1) || (dr == 1 && dc == 0) || (dr == 1 && dc == 1) || (dr == -1 && dc
            == 1),
    ensures
        -100 <= window_score(p1, p2, window_cells(row, col, dr, dc)) <= 100,
{
    let cells = window_cells(row, col, dr, dc);
    let q = cell_index(row, col);
    let step = dr + 7 * dc;
    lemma_window_cells_ok(row, col, dr, dc);
    lemma_chips_range(p1, cells);
    lemma_chips_range(p2, cells);
    if chips(p1, cells) == 4 {
        assert(bit_set(p1, cells[0]) && bit_set(p1, cells[1]) && bit_set(p1, cells[2]) && bit_set(
            p1,
            cells[3],
        ));
        assert(run_at(p1, step, q));
    }
    if chips(p2, cells) == 4 {
        assert(bit_set(p2, cells[0]) && bit_set(p2, cells[1]) && bit_set(p2, cells[2]) && bit_set(
            p2,
            cells[3],
        ));
        assert(run_at(p2, step, q));
    }
    lemma_window_value_range(chips(p1, cells), chips(p2, cells));
}

/// On a board where nobody has four in a row, the line scores stay small.
proof fn lemma_live_all_windows(p1: u64, p2: u64)
    requires
        !has_four(p1),
        !has_four(p2),
    ensures
        -11400 <= all_windows(p1, p2) <= 11400,
{
    assert forall|r: int, c: int| 0 <= r < 6 && 0 <= c < 4 implies -100 <= #[trigger] window_score(
        p1,
        p2,
        window_cells(r, c, 0, 1),
    ) <= 100 by {
        lemma_live_window(p1, p2, r, c, 0, 1);
    }
    assert forall|r: int, c: int| 0 <= r < 3 && 0 <= c < 7 implies -100 <= #[trigger] window_score(
        p1,
        p2,
        window_cells(r, c, 1, 0),
    ) <= 100 by {
        lemma_live_window(p1, p2, r, c, 1, 0);
    }
    assert forall|r: int, c: int| 0 <= r < 3 && 0 <= c < 4 implies -100 <= #[trigger] window_score(
        p1,
        p2,
        window_cells(r, c, 1, 1),
    ) <= 100 by {
        lemma_live_window(p1, p2, r, c, 1, 1);
    }
    assert forall|r: int, c: int| 3 <= r < 6 && 0 <= c < 4 implies -100 <= #[trigger] window_score(
        p1,
        p2,
        window_cells(r, c, -1, 1),
    ) <= 100 by {
        lemma_live_window(p1, p2, r, c, -1, 1);
    }
    lemma_direction_windows_bound(p1, p2, 0, 1, 0, 6, 4, 100);
    lemma_direction_windows_bound(p1, p2, 1, 0, 0, 3, 7, 100);
    lemma_direction_windows_bound(p1, p2, 1, 1, 0, 3, 4, 100);
    lemma_direction_windows_bound(p1, p2, -1, 1, 3, 6, 4, 100);
}

/// The column cells are six distinct bits below 49.
proof fn lemma_column_cells_ok(col: int)
    requires
        0 <= col < 7,
    ensures
        forall|a: int, b: int|
            0 <= a < b < 6 ==> column_cells(col)[a] != column_cells(col)[b],
        forall|k: int| 0 <= k < 6 ==> 0 <= #[trigger] column_cells(col)[k] < 49,
{
}

/// Centre control stays within its weights times six discs.
proof fn lemma_center_score_bound(p1: u64, p2: u64, ncols: int)
    requires
        0 <= ncols <= 7,
    ensures
        -42 * ncols <= center_score(p1, p2, ncols) <= 42 * ncols,
    decreases ncols,
{
    if ncols > 0 {
        lemma_center_score_bound(p1, p2, ncols - 1);
        let c = ncols - 1;
        lemma_chips_range(p1, column_cells(c));
        lemma_chips_range(p2, column_cells(c));
        let d = chips(p1, column_cells(c)) - chips(p2, column_cells(c));
        assert(-42 <= column_weight(c) * d <= 42) by (nonlinear_arith)
            requires
                -6 <= d <= 6,
                3 <= column_weight(c) <= 7,
        ;
    }
}

/// The weight of a column.
fn column_weight_of(col: u8) -> (r: i32)
    requires
        col < 7,
    ensures
        r == column_weight(col as int),
{
    match col {
        3 => 7,
        2 | 4 => 5,
        1 | 5 => 4,
        _ => 3,
    }
}

impl Default for BitboardState {
    /// The starting position.
    fn default() -> (r: Self)
        ensures
            r.player_bb == 0,
            r.mask_bb == 0,
            forall|c: int| 0 <= c < 7 ==> r.heights@[c] == 0,
            r.current_player == Player::Player1,
            r.board_ok(),
    {
        Self::new()
    }
}

impl BitboardState {
    /// The state's invariant: column heights of at most six, `mask_bb` the
    /// cells below them, Player1's discs among them.
    pub open spec fn board_ok(&self) -> bool {
        &&& heights_ok(self.heights@)
        &&& mask_matches(self.mask_bb, self.heights@)
        &&& forall|i: int| 0 <= i < 64 ==> #[trigger] bit_set(self.player_bb, i) ==> bit_set(
            self.mask_bb,
            i,
        )
    }

    /// Player2's discs.
    pub open spec fn p2_spec(&self) -> u64 {
        self.mask_bb ^ self.player_bb
    }

    /// The result: +1 when Player1 has four in a row, else -1 when Player2
    /// has, else 0 on a full board, else none.
    pub open spec fn outcome_of(&self) -> Option<int> {
        if has_four(self.player_bb) {
            Some(1)
        } else if has_four(self.p2_spec()) {
            Some(-1)
        } else if all_full(self.heights@) {
            Some(0)
        } else {
            None
        }
    }

    /// The static evaluation: a finished game scores its result times
    /// [`OUTCOME_SCALE`]; otherwise the lines of four plus centre control.
    pub open spec fn evaluation(&self) -> int {
        match self.outcome_of() {
            Some(v) => v * OUTCOME_SCALE,
            None => all_windows(self.player_bb, self.p2_spec()) + center_score(
                self.player_bb,
                self.p2_spec(),
                7,
            ),
        }
    }

    /// The search priority of column `col` for the player to move: 1000000
    /// when a disc there wins at once, 10000 when it takes the opponent's
    /// winning cell, else the column's weight.
    pub open spec fn column_priority(&self, col: int) -> int {
        let bit = landing_bit(self.heights@, col);
        let mine = if self.current_player == Player::Player1 {
            self.player_bb
        } else {
            self.p2_spec()
        };
        let theirs = if self.current_player == Player::Player1 {
            self.p2_spec()
        } else {
            self.player_bb
        };
        if has_four(mine | bit) {
            1_000_000
        } else if has_four(theirs | bit) {
            10_000
        } else {
            column_weight(col)
        }
    }

    /// The state after a disc of the player to move drops into `col`.
    pub open spec fn drop_disc(&self, col: int) -> BitboardState {
        let bit = landing_bit(self.heights@, col);
        BitboardState {
            player_bb: if self.current_player == Player::Player1 {
                self.player_bb | bit
            } else {
                self.player_bb
            },
            mask_bb: self.mask_bb | bit,
            heights: vstd::array::spec_array_update(
                self.heights,
                col,
                (self.heights@[col] + 1) as u8,
            ),
            current_player: self.current_player.opposite(),
        }
    }


    /// Dropping a disc into a column that takes one keeps the invariant.
    pub proof fn lemma_drop_disc(&self, col: int)
        requires
            self.board_ok(),
            0 <= col < 7,
            self.heights@[col] < 6,
        ensures
            self.drop_disc(col).board_ok(),
            self.drop_disc(col).heights@ == self.heights@.update(col, (self.heights@[col] + 1) as u8),
    {
        let r = self.drop_disc(col);
        let q = (col * 7 + self.heights@[col]) as u64;
        assert(r.heights@ == self.heights@.update(col, (self.heights@[col] + 1) as u8));
        assert forall|i: int| 0 <= i < 64 implies (#[trigger] bit_set(r.mask_bb, i) <==> (i
            < 49 && i % 7 < r.heights@[i / 7])) by {
            lemma_or_bit_at(self.mask_bb, q, i as u64);
            assert(bit_set(r.mask_bb, i) <==> (bit_set(self.mask_bb, i) || i == q));
        }
        assert forall|i: int| 0 <= i < 64 && #[trigger] bit_set(r.player_bb, i) implies bit_set(
            r.mask_bb,
            i,
        ) by {
            lemma_or_bit_at(self.mask_bb, q, i as u64);
            lemma_or_bit_at(self.player_bb, q, i as u64);
            assert(bit_set(r.mask_bb, i) <==> (bit_set(self.mask_bb, i) || i == q));
            if self.current_player == Player::Player1 {
                assert(bit_set(r.player_bb, i) <==> (bit_set(self.player_bb, i) || i == q));
            }
        }
    }

    /// The empty board with Player1 to move.
    pub fn new() -> (r: Self)
        ensures
            r.player_bb == 0,
            r.mask_bb == 0,
            forall|c: int| 0 <= c < 7 ==> r.heights@[c] == 0,
            r.current_player == Player::Player1,
            r.board_ok(),
    {
        let r = BitboardState {
            player_bb: 0,
            mask_bb: 0,
            heights: [0u8;7],
            current_player: Player::Player1,
        };
        proof {
            assert forall|i: int| 0 <= i < 64 implies !#[trigger] bit_set(0u64, i) by {
                assert(forall|j: u64| (0u64 >> j) & 1 != 1) by (bit_vector);
            }
        }
        r
    }

    /// The bit where the next disc of column `col` lands.
    pub fn next_bit(&self, col: u8) -> (r: u64)
        requires
            col < 7,
            heights_ok(self.heights@),
        ensures
            r == landing_bit(self.heights@, col as int),
    {
        let bit_index = (col * BITS_PER_COL) + self.heights[col as usize];
        1u64 << (bit_index as u64)
    }

    /// Drops a disc of the player to move into `col`: sets its bit in
    /// `mask_bb` (and in `player_bb` for Player1), raises the column and hands
    /// the turn over.  `col` must still take a disc.
    pub fn apply_column_move(&self, col: u8) -> (r: Self)
        requires
            self.board_ok(),
            col < 7,
            self.heights@[col as int] < 6,
        ensures
            r == self.drop_disc(col as int),
            r.board_ok(),
    {
        let next_move = self.next_bit(col);
        let new_mask_bb = self.mask_bb | next_move;
        let mut new_heights = self.heights;
        new_heights[col as usize] = self.heights[col as usize] + 1;
        let new_player_bb = match self.current_player {
            Player::Player1 => self.player_bb | next_move,
            Player::Player2 => self.player_bb,
        };
        let new_player = opposite_player(self.current_player);
        let r = BitboardState {
            player_bb: new_player_bb,
            mask_bb: new_mask_bb,
            heights: new_heights,
            current_player: new_player,
        };
        proof {
            self.lemma_drop_disc(col as int);
            assert(r.heights@ == self.heights@.update(
                col as int,
                (self.heights@[col as int] + 1) as u8,
            ));
            assert(r.heights == self.drop_disc(col as int).heights);
        }
        r
    }

    /// Player2's discs.
    fn p2_bb(&self) -> (r: u64)
        ensures
            r == self.p2_spec(),
    {
        self.mask_bb ^ self.player_bb
    }

    /// Whether `bb` holds four in a row: four set bits at a stride of 1 (up a
    /// column), 7 (along a row), 8 or 6 (along the diagonals).
    pub fn check_win(&self, bb: u64) -> (r: bool)
        ensures
            r == has_four(bb),
    {
        has_run_exec(bb, 1) || has_run_exec(bb, BITS_PER_COL) || has_run_exec(
            bb,
            BITS_PER_COL + 1,
        ) || has_run_exec(bb, BITS_PER_COL - 1)
    }

    /// Whether every column holds six discs.
    pub fn is_full(&self) -> (r: bool)
        ensures
            r == all_full(self.heights@),
    {
        let mut c: usize = 0;
        while c < 7
            invariant
                c <= 7,
                forall|j: int| 0 <= j < c ==> #[trigger] self.heights@[j] == 6,
            decreases 7 - c,
        {
            if self.heights[c] != ROWS {
                return false;
            }
            c += 1;
        }
        true
    }

    /// The bit of row `row` in column `col`.
    fn idx(row: u8, col: u8) -> (r: u8)
        requires
            row < 7,
            col < 7,
        ensures
            r == cell_index(row as int, col as int),
    {
        col * BITS_PER_COL + row
    }

    /// The mask of the four cells `coords` (row, column).
    fn window_mask(coords: &[(u8, u8); 4]) -> (r: u64)
        requires
            forall|k: int| 0 <= k < 4 ==> #[trigger] coords@[k].0 < 6 && coords@[k].1 < 7,
        ensures
            forall|i: int|
                0 <= i < 64 ==> (#[trigger] bit_set(r, i) <==> coord_cells(coords@).contains(i)),
    {
        let ghost cells = coord_cells(coords@);
        let mut acc: u64 = 0;
        let mut k: usize = 0;
        proof {
            lemma_zero_bits();
        }
        while k < 4
            invariant
                k <= 4,
                forall|j: int| 0 <= j < 4 ==> #[trigger] coords@[j].0 < 6 && coords@[j].1 < 7,
                cells == coord_cells(coords@),
                forall|i: int|
                    0 <= i < 64 ==> (#[trigger] bit_set(acc, i) <==> cells.take(k as int).contains(
                        i,
                    )),
            decreases 4 - k,
        {
            let (r, c) = coords[k];
            assert(coords@[k as int].0 < 6 && coords@[k as int].1 < 7);
            let q = Self::idx(r, c);
            let ghost old_acc = acc;
            acc = acc | (1u64 << (q as u64));
            proof {
                assert(cells.take(k as int + 1) =~= cells.take(k as int).push(cells[k as int]));
                assert forall|i: int| 0 <= i < 64 implies (#[trigger] bit_set(acc, i) <==> cells.take(
                    k as int + 1,
                ).contains(i)) by {
                    lemma_or_bit_at(old_acc, q as u64, i as u64);
                    assert(bit_set(acc, i) <==> (bit_set(old_acc, i) || i == cells[k as int]));
                    assert(cells.take(k as int + 1).contains(i) <==> (cells.take(k as int).contains(
                        i,
                    ) || i == cells[k as int])) by {
                        let t = cells.take(k as int + 1);
                        if t.contains(i) {
                            let j = choose|j: int| 0 <= j < t.len() && t[j] == i;
                            if j < k {
                                assert(cells.take(k as int)[j] == i);
                            }
                        }
                        if cells.take(k as int).contains(i) {
                            let j = choose|j: int|
                                0 <= j < k && cells.take(k as int)[j] == i;
                            assert(t[j] == i);
                        }
                        if i == cells[k as int] {
                            assert(t[k as int] == i);
                        }
                    }
                }
            }
            k += 1;
        }
        assert(cells.take(4) =~= cells);
        acc
    }

    /// The discs of `board` inside `mask`.
    fn count_player_chips(&self, board: u64, mask: u64) -> (r: u32)
        ensures
            r == ones_below(mask & board, 64),
    {
        count_ones(mask & board)
    }

    /// The score of the line of four whose cells `window_mask` selects.
    fn score_window(&self, p1_board: u64, p2_board: u64, window_mask: u64) -> (r: i32)
        ensures
            r == window_value(
                ones_below(window_mask & p1_board, 64),
                ones_below(window_mask & p2_board, 64),
            ),
    {
        let num_p1_chips = self.count_player_chips(p1_board, window_mask);
        let num_p2_chips = self.count_player_chips(p2_board, window_mask);
        match (num_p1_chips, num_p2_chips) {
            (4, 0) => 100000,
            (3, 0) => 100,
            (2, 0) => 10,
            (0, 2) => -10,
            (0, 3) => -100,
            (0, 4) => -100000,
            _ => 0,
        }
    }

    /// The lines along the rows.
    fn check_horizontal(&self, p1_board: u64, p2_board: u64) -> (r: i32)
        ensures
            r == direction_windows(p1_board, p2_board, 0, 1, 0, 6, 4),
    {
        let mut score: i32 = 0;
        let mut col: u8 = 0;
        while col <= COLS - WIN_LENGTH
            invariant
                col <= 4,
                score == direction_windows(p1_board, p2_board, 0, 1, 0, 6, col as int),
            decreases 4 - col,
        {
            let mut row: u8 = 0;
            while row < ROWS
                invariant
                    0 <= row <= 6,
                    col < 4,
                    score == direction_windows(p1_board, p2_board, 0, 1, 0, 6, col as int)
                        + column_windows(p1_board, p2_board, 0, 1, col as int, 0, row as int),
                decreases 6 - row,
            {
                let coords = [(row, col), (row, col + 1), (row, col + 2), (row, col + 3)];
                proof {
                    lemma_window_coords(coords, row as int, col as int, 0, 1);
                }
                let mask = Self::window_mask(&coords);
                proof {
                    lemma_scan_step(
                        p1_board,
                        p2_board,
                        mask,
                        row as int,
                        col as int,
                        0,
                        1,
                        0,
                        6,
                    );
                }
                score += self.score_window(p1_board, p2_board, mask);
                row += 1;
            }
            col += 1;
        }
        score
    }

    /// The lines up the columns.
    fn check_vertical(&self, p1_board: u64, p2_board: u64) -> (r: i32)
        ensures
            r == direction_windows(p1_board, p2_board, 1, 0, 0, 3, 7),
    {
        let mut score: i32 = 0;
        let mut col: u8 = 0;
        while col < COLS
            invariant
                col <= 7,
                score == direction_windows(p1_board, p2_board, 1, 0, 0, 3, col as int),
            decreases 7 - col,
        {
            let mut row: u8 = 0;
            while row <= ROWS - WIN_LENGTH
                invariant
                    0 <= row <= 3,
                    col < 7,
                    score == direction_windows(p1_board, p2_board, 1, 0, 0, 3, col as int)
                        + column_windows(p1_board, p2_board, 1, 0, col as int, 0, row as int),
                decreases 3 - row,
            {
                let coords = [(row, col), (row + 1, col), (row + 2, col), (row + 3, col)];
                proof {
                    lemma_window_coords(coords, row as int, col as int, 1, 0);
                }
                let mask = Self::window_mask(&coords);
                proof {
                    lemma_scan_step(
                        p1_board,
                        p2_board,
                        mask,
                        row as int,
                        col as int,
                        1,
                        0,
                        0,
                        3,
                    );
                }
                score += self.score_window(p1_board, p2_board, mask);
                row += 1;
            }
            col += 1;
        }
        score
    }

    /// The diagonal lines that climb to the right.
    fn check_diag_down(&self, p1_board: u64, p2_board: u64) -> (r: i32)
        ensures
            r == direction_windows(p1_board, p2_board, 1, 1, 0, 3, 4),
    {
        let mut score: i32 = 0;
        let mut col: u8 = 0;
        while col <= COLS - WIN_LENGTH
            invariant
                col <= 4,
                score == direction_windows(p1_board, p2_board, 1, 1, 0, 3, col as int),
            decreases 4 - col,
        {
            let mut row: u8 = 0;
            while row <= ROWS - WIN_LENGTH
                invariant
                    0 <= row <= 3,
                    col < 4,
                    score == direction_windows(p1_board, p2_board, 1, 1, 0, 3, col as int)
                        + column_windows(p1_board, p2_board, 1, 1, col as int, 0, row as int),
                decreases 3 - row,
            {
                let coords = [(row, col), (row + 1, col + 1), (row + 2, col + 2), (row + 3, col + 3)];
                proof {
                    lemma_window_coords(coords, row as int, col as int, 1, 1);
                }
                let mask = Self::window_mask(&coords);
                proof {
                    lemma_scan_step(
                        p1_board,
                        p2_board,
                        mask,
                        row as int,
                        col as int,
                        1,
                        1,
                        0,
                        3,
                    );
                }
                score += self.score_window(p1_board, p2_board, mask);
                row += 1;
            }
            col += 1;
        }
        score
    }

    /// The diagonal lines that fall to the right.
    fn check_diag_up(&self, p1_board: u64, p2_board: u64) -> (r: i32)
        ensures
            r == direction_windows(p1_board, p2_board, -1, 1, 3, 6, 4),
    {
        let mut score: i32 = 0;
        let mut col: u8 = 0;
        while col <= COLS - WIN_LENGTH
            invariant
                col <= 4,
                score == direction_windows(p1_board, p2_board, -1, 1, 3, 6, col as int),
            decreases 4 - col,
        {
            let mut row: u8 = WIN_LENGTH - 1;
            while row < ROWS
                invariant
                    3 <= row <= 6,
                    col < 4,
                    score == direction_windows(p1_board, p2_board, -1, 1, 3, 6, col as int)
                        + column_windows(p1_board, p2_board, -1, 1, col as int, 3, row as int),
                decreases 6 - row,
            {
                let coords = [(row, col), (row - 1, col + 1), (row - 2, col + 2), (row - 3, col + 3)];
                proof {
                    lemma_window_coords(coords, row as int, col as int, -1, 1);
                }
                let mask = Self::window_mask(&coords);
                proof {
                    lemma_scan_step(
                        p1_board,
                        p2_board,
                        mask,
                        row as int,
                        col as int,
                        -1,
                        1,
                        3,
                        6,
                    );
                }
                score += self.score_window(p1_board, p2_board, mask);
                row += 1;
            }
            col += 1;
        }
        score
    }

    /// The scores of all lines of four.
    fn score_all_windows(&self, p1_board: u64, p2_board: u64) -> (r: i32)
        ensures
            r == all_windows(p1_board, p2_board),
    {
        proof {
            lemma_all_window_scores(p1_board, p2_board, 0, 1);
            lemma_all_window_scores(p1_board, p2_board, 1, 0);
            lemma_all_window_scores(p1_board, p2_board, 1, 1);
            lemma_all_window_scores(p1_board, p2_board, -1, 1);
            lemma_direction_windows_bound(p1_board, p2_board, 0, 1, 0, 6, 4, 100000);
            lemma_direction_windows_bound(p1_board, p2_board, 1, 0, 0, 3, 7, 100000);
            lemma_direction_windows_bound(p1_board, p2_board, 1, 1, 0, 3, 4, 100000);
            lemma_direction_windows_bound(p1_board, p2_board, -1, 1, 3, 6, 4, 100000);
        }
        self.check_horizontal(p1_board, p2_board) + self.check_vertical(p1_board, p2_board)
            + self.check_diag_down(p1_board, p2_board) + self.check_diag_up(p1_board, p2_board)
    }

    /// Column `column`'s weight times Player1's discs there less Player2's.
    fn score_column(&self, p1_board: u64, p2_board: u64, column: u8) -> (r: i32)
        requires
            column < 7,
        ensures
            r == column_weight(column as int) * (chips(p1_board, column_cells(column as int))
                - chips(p2_board, column_cells(column as int))),
    {
        let ghost cells = column_cells(column as int);
        let mut col_mask = 0u64;
        let mut row: u8 = 0;
        proof {
            lemma_zero_bits();
        }
        while row < ROWS
            invariant
                row <= 6,
                column < 7,
                cells == column_cells(column as int),
                forall|i: int|
                    0 <= i < 64 ==> (#[trigger] bit_set(col_mask, i) <==> cells.take(
                        row as int,
                    ).contains(i)),
            decreases 6 - row,
        {
            let idx = Self::idx(row, column);
            let ghost old_mask = col_mask;
            col_mask = col_mask | (1u64 << idx as u64);
            proof {
                let t = cells.take(row as int + 1);
                assert forall|i: int| 0 <= i < 64 implies (#[trigger] bit_set(col_mask, i)
                    <==> t.contains(i)) by {
                    lemma_or_bit_at(old_mask, idx as u64, i as u64);
                    assert(bit_set(col_mask, i) <==> (bit_set(old_mask, i) || i == cells[row as int]));
                    if t.contains(i) {
                        let j = choose|j: int| 0 <= j < t.len() && t[j] == i;
                        if j < row {
                            assert(cells.take(row as int)[j] == i);
                        }
                    }
                    if cells.take(row as int).contains(i) {
                        let j = choose|j: int| 0 <= j < row && cells.take(row as int)[j] == i;
                        assert(t[j] == i);
                    }
                    if i == cells[row as int] {
                        assert(t[row as int] == i);
                    }
                }
            }
            row += 1;
        }
        proof {
            assert(cells.take(6) =~= cells);
            lemma_column_cells_ok(column as int);
            lemma_masked_count(col_mask, p1_board, cells);
            lemma_masked_count(col_mask, p2_board, cells);
            lemma_chips_range(p1_board, cells);
            lemma_chips_range(p2_board, cells);
        }
        let num_p1_chips = self.count_player_chips(p1_board, col_mask) as i32;
        let num_p2_chips = self.count_player_chips(p2_board, col_mask) as i32;
        let w = column_weight_of(column);
        proof {
            let d = num_p1_chips - num_p2_chips;
            assert(-42 <= w * d <= 42) by (nonlinear_arith)
                requires
                    -6 <= d <= 6,
                    3 <= w <= 7,
            ;
        }
        w * (num_p1_chips - num_p2_chips)
    }

    /// Centre control: the column scores summed.
    fn center_control_score(&self, p1_board: u64, p2_board: u64) -> (r: i32)
        ensures
            r == center_score(p1_board, p2_board, 7),
    {
        let mut score: i32 = 0;
        let mut col: u8 = 0;
        while col < COLS
            invariant
                col <= 7,
                score == center_score(p1_board, p2_board, col as int),
            decreases 7 - col,
        {
            proof {
                lemma_center_score_bound(p1_board, p2_board, col as int + 1);
                lemma_center_score_bound(p1_board, p2_board, col as int);
            }
            score += self.score_column(p1_board, p2_board, col);
            col += 1;
        }
        score
    }

    /// The static evaluation from Player1's side: a finished game scores its
    /// result times 1000000; otherwise each line of four that only one side
    /// has entered scores 10 for two discs and 100 for three (negative for
    /// Player2), and each column adds its weight times Player1's discs there
    /// less Player2's.
    pub fn evaluate(&self) -> (r: i32)
        requires
            self.board_ok(),
        ensures
            r == self.evaluation(),
    {
        let p1_board = self.player_bb;
        let p2_board = self.p2_bb();
        if let Some(v) = self.terminal_value() {
            return v * OUTCOME_SCALE;
        }
        proof {
            lemma_all_window_scores(p1_board, p2_board, 0, 1);
            lemma_all_window_scores(p1_board, p2_board, 1, 0);
            lemma_all_window_scores(p1_board, p2_board, 1, 1);
            lemma_all_window_scores(p1_board, p2_board, -1, 1);
            lemma_direction_windows_bound(p1_board, p2_board, 0, 1, 0, 6, 4, 100000);
            lemma_direction_windows_bound(p1_board, p2_board, 1, 0, 0, 3, 7, 100000);
            lemma_direction_windows_bound(p1_board, p2_board, 1, 1, 0, 3, 4, 100000);
            lemma_direction_windows_bound(p1_board, p2_board, -1, 1, 3, 6, 4, 100000);
            lemma_center_score_bound(p1_board, p2_board, 7);
        }
        self.score_all_windows(p1_board, p2_board) + self.center_control_score(p1_board, p2_board)
    }

    /// The search priority of column `col` for the player to move: 1000000
    /// when a disc there wins at once, 10000 when it blocks a column where
    /// the opponent would win at once, else the column's weight.
    pub fn move_ordering_key_connect4(&self, col: u8) -> (r: i32)
        requires
            col < 7,
            heights_ok(self.heights@),
        ensures
            r == self.column_priority(col as int),
    {
        let bit = self.next_bit(col);
        let p1 = self.player_bb;
        let p2 = self.p2_bb();
        let (curr_after, opp_after) = match self.current_player {
            Player::Player1 => (p1 | bit, p2 | bit),
            Player::Player2 => (p2 | bit, p1 | bit),
        };
        if self.check_win(curr_after) {
            1_000_000
        } else if self.check_win(opp_after) {
            10_000
        } else {
            column_weight_of(col)
        }
    }

    /// The owner of the disc at `row` (0 at the bottom) of column `col`, if
    /// there is one.
    pub fn disc_at(&self, row: u8, col: u8) -> (r: Option<Player>)
        requires
            row < 6,
            col < 7,
        ensures
            r == (if bit_set(self.player_bb, cell_index(row as int, col as int)) {
                Some(Player::Player1)
            } else if bit_set(self.mask_bb, cell_index(row as int, col as int)) {
                Some(Player::Player2)
            } else {
                None
            }),
    {
        let i = Self::idx(row, col) as u64;
        if (self.player_bb >> i) & 1 == 1 {
            Some(Player::Player1)
        } else if (self.mask_bb >> i) & 1 == 1 {
            Some(Player::Player2)
        } else {
            None
        }
    }
}


/// Empty cells drop by one when a disc fills one.
pub(crate) proof fn lemma_free_cells_drop(heights: Seq<u8>, col: int, n: nat)
    requires
        heights.len() == 7,
        0 <= col < 7,
        n <= 7,
        heights[col] < 6,
    ensures
        free_cells(heights.update(col, (heights[col] + 1) as u8), n) == free_cells(heights, n) - (
        if col < n {
            1int
        } else {
            0
        }),
    decreases n,
{
    if n > 0 {
        lemma_free_cells_drop(heights, col, (n - 1) as nat);
    }
}

/// Empty cells are never negative on a board.
pub(crate) proof fn lemma_free_cells_nonneg(heights: Seq<u8>, n: nat)
    requires
        heights_ok(heights),
        n <= 7,
    ensures
        free_cells(heights, n) >= 0,
    decreases n,
{
    if n > 0 {
        lemma_free_cells_nonneg(heights, (n - 1) as nat);
    }
}

/// The open columns are those below six discs.
proof fn lemma_open_columns(heights: Seq<u8>, n: nat)
    requires
        n <= 7,
        heights.len() == 7,
    ensures
        forall|c: u8| open_columns(heights, n).contains(c) ==> c < n && heights[c as int] < 6,
        (exists|c: int| 0 <= c < n && heights[c] < 6) ==> open_columns(heights, n).len() > 0,
    decreases n,
{
    if n > 0 {
        lemma_open_columns(heights, (n - 1) as nat);
        let prev = open_columns(heights, (n - 1) as nat);
        assert forall|c: u8| open_columns(heights, n).contains(c) implies c < n && heights[c as int]
            < 6 by {
            if !(heights[n - 1] < 6 && c == (n - 1) as u8) {
                let k = choose|k: int|
                    0 <= k < open_columns(heights, n).len() && open_columns(heights, n)[k] == c;
                assert(prev[k] == c);
                assert(prev.contains(c));
            }
        }
    }
}

impl GameState for BitboardState {
    type Move = u8;

    open spec fn wf(&self) -> bool {
        self.board_ok()
    }

    open spec fn to_move(&self) -> Player {
        self.current_player
    }

    open spec fn moves(&self) -> Seq<u8> {
        open_columns(self.heights@, 7)
    }

    open spec fn after(&self, mv: u8) -> BitboardState {
        self.drop_disc(mv as int)
    }

    open spec fn terminal(&self) -> bool {
        has_four(self.player_bb) || has_four(self.p2_spec()) || all_full(self.heights@)
    }

    open spec fn outcome(&self) -> Option<int> {
        self.outcome_of()
    }

    open spec fn heuristic(&self) -> int {
        self.evaluation()
    }

    open spec fn ordering_key(&self, mv: u8) -> int {
        self.column_priority(mv as int)
    }

    open spec fn in_range(&self, mv: u8) -> bool {
        mv < 7
    }

    open spec fn plies_left(&self) -> nat {
        free_cells(self.heights@, 7) as nat
    }

    proof fn lemma_terminal_iff_outcome(&self) {
    }

    proof fn lemma_value_ranges(&self) {
        if self.outcome_of() is None {
            lemma_live_all_windows(self.player_bb, self.p2_spec());
            lemma_center_score_bound(self.player_bb, self.p2_spec(), 7);
        }
    }

    proof fn lemma_move_step(&self, mv: u8) {
        lemma_open_columns(self.heights@, 7);
        self.lemma_drop_disc(mv as int);
        lemma_free_cells_drop(self.heights@, mv as int, 7);
        lemma_free_cells_nonneg(self.heights@, 7);
        lemma_free_cells_nonneg(self.drop_disc(mv as int).heights@, 7);
    }

    proof fn lemma_legal_in_range(&self, mv: u8) {
        lemma_open_columns(self.heights@, 7);
    }

    proof fn lemma_live_has_moves(&self) {
        lemma_open_columns(self.heights@, 7);
        let c = choose|c: int| 0 <= c < 7 && self.heights@[c] != 6;
        assert(self.heights@[c] < 6);
    }

    fn current_player(&self) -> Player {
        self.current_player
    }

    fn legal_moves(&self) -> Vec<u8> {
        let mut moves: Vec<u8> = Vec::new();
        let mut c: u8 = 0;
        while c < COLS
            invariant
                c <= 7,
                moves@ == open_columns(self.heights@, c as nat),
            decreases 7 - c,
        {
            if self.heights[c as usize] < ROWS {
                moves.push(c);
            }
            c += 1;
        }
        moves
    }

    fn apply_move(&self, mv: &u8) -> BitboardState {
        proof {
            lemma_open_columns(self.heights@, 7);
        }
        self.apply_column_move(*mv)
    }

    fn is_terminal(&self) -> bool {
        self.check_win(self.player_bb) || self.check_win(self.p2_bb()) || self.is_full()
    }

    fn terminal_value(&self) -> Option<i32> {
        if self.check_win(self.player_bb) {
            Some(1)
        } else if self.check_win(self.p2_bb()) {
            Some(-1)
        } else if self.is_full() {
            Some(0)
        } else {
            None
        }
    }

    fn heuristic_value(&self) -> i32 {
        self.evaluate()
    }

    fn move_ordering_key(&self, mv: &u8) -> i32 {
        self.move_ordering_key_connect4(*mv)
    }
}

/// The column that the text `input` names for a move in `state`, when it is
/// a number from 0 to 6 whose column still takes a disc.
pub open spec fn move_column(input: Seq<char>, state: BitboardState) -> Option<int> {
    match decimal_usize(trimmed(input)) {
        Some(n) => if n <= 6 && state.heights@[n] < 6 {
            Some(n)
        } else {
            None
        },
        None => None,
    }
}

/// Reads a move from text typed by a player: a column from 0 to 6, with white
/// space around it allowed.  Text that is no number, a number past 6 and a
/// full column are refused.
pub fn parse_c4_move(input: &str, state: &BitboardState) -> (r: Result<u8, String>)
    ensures
        r is Ok <==> move_column(input@, *state) is Some,
        r matches Ok(c) ==> move_column(input@, *state) == Some(c as int),
{
    let col = match parse_usize(input) {
        Some(n) => n,
        None => {
            return Err("Could not parse input as a number in 0..=6".to_owned());
        },
    };
    if col > 6 {
        return Err("Column must be between 0 and 6".to_owned());
    }
    if state.heights[col] >= ROWS {
        return Err("Column is full.".to_owned());
    }
    Ok(col as u8)
}

} // verus!
