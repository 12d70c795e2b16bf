use crate::game::{outcome_or_zero, GameState, Player};
use crate::games::c4_bitboard::{
    free_cells, heights_ok, lemma_free_cells_drop, lemma_free_cells_nonneg,
};
use crate::utils::opposite_player;
use vstd::prelude::*;
use vstd::string::StrSliceExecFns;

verus! {

/// Playable rows.
const ROWS: u8 = 6;

/// Columns.
const COLS: u8 = 7;

/// Discs in a row that win.
const WIN_LENGTH: u8 = 4;

/// The contents of one Connect Four cell.
#[derive(Clone, Copy, Debug, PartialEq, Eq, Structural)]
pub enum C4Cell {
    /// No disc.
    Empty,
    /// A disc of Player1.
    P1,
    /// A disc of Player2.
    P2,
}

/// A Connect Four move: the column (0..=6) to drop a disc into.
#[derive(Clone, Copy, Debug)]
pub struct ConnectFourMove {
    /// The column.
    pub column: u8,
}

/// Connect Four on a plain array: 6 rows by 7 columns, row by row with row 0
/// at the top, cell `(row, col)` at index `row * 7 + col`; `heights[c]` is
/// the number of discs in column `c`.
#[derive(Clone, Copy, Debug)]
pub struct ConnectFourState {
    /// The 42 cells, row by row from the top.
    pub board: [C4Cell; 42],
    /// Discs per column.
    pub heights: [u8; 7],
    /// The player whose turn it is.
    pub current_player: Player,
}

/// The index of cell `(row, col)`.
pub open spec fn c4_index(row: int, col: int) -> int {
    row * 7 + col
}

/// The player who holds all four cells of the line that starts at
/// `(row, col)` and steps by `(dr, dc)`, if one does.
pub open spec fn line_owner(board: Seq<C4Cell>, row: int, col: int, dr: int, dc: int) -> Option<
    Player,
> {
    let a = board[c4_index(row, col)];
    let b = board[c4_index(row + dr, col + dc)];
    let c = board[c4_index(row + 2 * dr, col + 2 * dc)];
    let d = board[c4_index(row + 3 * dr, col + 3 * dc)];
    if a == C4Cell::P1 && b == C4Cell::P1 && c == C4Cell::P1 && d == C4Cell::P1 {
        Some(Player::Player1)
    } else if a == C4Cell::P2 && b == C4Cell::P2 && c == C4Cell::P2 && d == C4Cell::P2 {
        Some(Player::Player2)
    } else {
        None
    }
}

/// The owner of the first owned line of column `col` starting at rows
/// `row` up to `row_hi` (exclusive).
pub open spec fn first_owner_in_column(
    board: Seq<C4Cell>,
    dr: int,
    dc: int,
    col: int,
    row: int,
    row_hi: int,
) -> Option<Player>
    decreases row_hi - row,
{
    if row >= row_hi {
        None
    } else {
        match line_owner(board, row, col, dr, dc) {
            Some(p) => Some(p),
            None => first_owner_in_column(board, dr, dc, col, row + 1, row_hi),
        }
    }
}

/// The owner of the first owned line stepping by `(dr, dc)`, scanning columns
/// `col` up to `ncols` (exclusive) and in each the rows `row_lo..row_hi`.
pub open spec fn first_owner(
    board: Seq<C4Cell>,
    dr: int,
    dc: int,
    row_lo: int,
    row_hi: int,
    col: int,
    ncols: int,
) -> Option<Player>
    decreases ncols - col,
{
    if col >= ncols {
        None
    } else {
        match first_owner_in_column(board, dr, dc, col, row_lo, row_hi) {
            Some(p) => Some(p),
            None => first_owner(board, dr, dc, row_lo, row_hi, col + 1, ncols),
        }
    }
}

/// The winner: the owner of the first four in a row found along the rows,
/// then up the columns, then along the falling and the rising diagonals.
pub open spec fn winner_of(board: Seq<C4Cell>) -> Option<Player> {
    match first_owner(board, 0, 1, 0, 6, 0, 4) {
        Some(p) => Some(p),
        None => match first_owner(board, 1, 0, 0, 3, 0, 7) {
            Some(p) => Some(p),
            None => match first_owner(board, 1, 1, 0, 3, 0, 4) {
                Some(p) => Some(p),
                None => first_owner(board, -1, 1, 3, 6, 0, 4),
            },
        },
    }
}

/// Every cell holds a disc.
pub open spec fn c4_board_full(board: Seq<C4Cell>) -> bool {
    forall|i: int| 0 <= i < 42 ==> #[trigger] board[i] != C4Cell::Empty
}

/// The discs of each column fill it from the bottom (row 5) up to its height.
pub open spec fn stacked(board: Seq<C4Cell>, heights: Seq<u8>) -> bool {
    &&& board.len() == 42
    &&& heights_ok(heights)
    &&& forall|r: int, c: int|
        0 <= r < 6 && 0 <= c < 7 ==> (#[trigger] board[c4_index(r, c)] != C4Cell::Empty <==> r
            >= 6 - heights[c])
}

/// No disc floats: below every disc of a column there are only discs.
pub open spec fn no_floating_disc(board: Seq<C4Cell>) -> bool {
    forall|r: int, r2: int, c: int|
        0 <= r < r2 < 6 && 0 <= c < 7 && #[trigger] board[c4_index(r, c)] != C4Cell::Empty
            ==> #[trigger] board[c4_index(r2, c)] != C4Cell::Empty
}

/// The moves into the columns among the first `n` that still take a disc.
pub open spec fn open_column_moves(heights: Seq<u8>, n: nat) -> Seq<ConnectFourMove>
    decreases n,
{
    if n == 0 {
        seq![]
    } else {
        let prev = open_column_moves(heights, (n - 1) as nat);
        if heights[n - 1] < 6 {
            prev.push(ConnectFourMove { column: (n - 1) as u8 })
        } else {
            prev
        }
    }
}

/// The disc of player `p`.
pub open spec fn disc_of(p: Player) -> C4Cell {
    if p == Player::Player1 {
        C4Cell::P1
    } else {
        C4Cell::P2
    }
}

/// The cell that a character shows: `'X'` Player1, `'O'` Player2, `'.'`
/// empty.
pub open spec fn c4_cell_of_char(ch: char) -> C4Cell {
    if ch == 'X' {
        C4Cell::P1
    } else if ch == 'O' {
        C4Cell::P2
    } else {
        C4Cell::Empty
    }
}

/// The cells that a 42-character board string shows.
pub open spec fn cells_of_string(repr: Seq<char>) -> Seq<C4Cell> {
    Seq::new(42, |i: int| c4_cell_of_char(repr[i]))
}

/// A character that shows a cell.
pub open spec fn is_c4_char(ch: char) -> bool {
    ch == '.' || ch == 'X' || ch == 'O'
}

proof fn lemma_open_column_moves(heights: Seq<u8>, n: nat)
    requires
        n <= 7,
        heights.len() == 7,
    ensures
        forall|m: ConnectFourMove|
            open_column_moves(heights, n).contains(m) ==> m.column < n && heights[m.column as int]
                < 6,
        (exists|c: int| 0 <= c < n && heights[c] < 6) ==> open_column_moves(heights, n).len() > 0,
    decreases n,
{
    if n > 0 {
        lemma_open_column_moves(heights, (n - 1) as nat);
        let prev = open_column_moves(heights, (n - 1) as nat);
        assert forall|m: ConnectFourMove| open_column_moves(heights, n).contains(m) implies m.column
            < n && heights[m.column as int] < 6 by {
            if !(heights[n - 1] < 6 && m == (ConnectFourMove { column: (n - 1) as u8 })) {
                let k = choose|k: int|
                    0 <= k < open_column_moves(heights, n).len() && open_column_moves(heights, n)[k]
                        == m;
                assert(prev[k] == m);
                assert(prev.contains(m));
            }
        }
    }
}

impl Default for ConnectFourState {
    /// The starting position.
    fn default() -> (r: Self)
        ensures
            forall|i: int| 0 <= i < 42 ==> r.board@[i] == C4Cell::Empty,
            forall|c: int| 0 <= c < 7 ==> r.heights@[c] == 0,
            r.current_player == Player::Player1,
            stacked(r.board@, r.heights@),
    {
        Self::new()
    }
}

impl ConnectFourState {
    /// The empty board with Player1 to move.
    pub fn new() -> (r: Self)
        ensures
            forall|i: int| 0 <= i < 42 ==> r.board@[i] == C4Cell::Empty,
            forall|c: int| 0 <= c < 7 ==> r.heights@[c] == 0,
            r.current_player == Player::Player1,
            stacked(r.board@, r.heights@),
    {
        ConnectFourState {
            board: [C4Cell::Empty;42],
            heights: [0u8;7],
            current_player: Player::Player1,
        }
    }

    /// The index of cell `(row, col)`.
    fn idx(row: u8, col: u8) -> (r: usize)
        requires
            row < 6,
            col < 7,
        ensures
            r == c4_index(row as int, col as int),
    {
        (row as usize) * 7 + col as usize
    }

    /// The player who holds all four cells `idxs`, if one does.
    fn check_line(&self, idxs: [usize; 4]) -> (r: Option<Player>)
        requires
            forall|k: int| 0 <= k < 4 ==> #[trigger] idxs@[k] < 42,
        ensures
            r == (if self.board@[idxs@[0] as int] == C4Cell::P1 && self.board@[idxs@[1] as int]
                == C4Cell::P1 && self.board@[idxs@[2] as int] == C4Cell::P1
                && self.board@[idxs@[3] as int] == C4Cell::P1 {
                Some(Player::Player1)
            } else if self.board@[idxs@[0] as int] == C4Cell::P2 && self.board@[idxs@[1] as int]
                == C4Cell::P2 && self.board@[idxs@[2] as int] == C4Cell::P2
                && self.board@[idxs@[3] as int] == C4Cell::P2 {
                Some(Player::Player2)
            } else {
                None
            }),
    {
        assert(idxs@[0] < 42 && idxs@[1] < 42 && idxs@[2] < 42 && idxs@[3] < 42);
        let is_p1 = self.board[idxs[0]] == C4Cell::P1 && self.board[idxs[1]] == C4Cell::P1
            && self.board[idxs[2]] == C4Cell::P1 && self.board[idxs[3]] == C4Cell::P1;
        if is_p1 {
            return Some(Player::Player1);
        }
        let is_p2 = self.board[idxs[0]] == C4Cell::P2 && self.board[idxs[1]] == C4Cell::P2
            && self.board[idxs[2]] == C4Cell::P2 && self.board[idxs[3]] == C4Cell::P2;
        if is_p2 {
            return Some(Player::Player2);
        }
        None
    }

    /// The first line along a row that one player holds.
    fn check_horizontal(&self) -> (r: Option<Player>)
        ensures
            r == first_owner(self.board@, 0, 1, 0, 6, 0, 4),
    {
        let mut col: u8 = 0;
        while col <= COLS - WIN_LENGTH
            invariant
                col <= 4,
                first_owner(self.board@, 0, 1, 0, 6, 0, 4) == first_owner(
                    self.board@,
                    0,
                    1,
                    0,
                    6,
                    col as int,
                    4,
                ),
            decreases 4 - col,
        {
            let mut row: u8 = 0;
            while row < ROWS
                invariant
                    0 <= row <= 6,
                    col < 4,
                    first_owner(self.board@, 0, 1, 0, 6, 0, 4) == first_owner(
                        self.board@,
                        0,
                        1,
                        0,
                        6,
                        col as int,
                        4,
                    ),
                    first_owner_in_column(self.board@, 0, 1, col as int, 0, 6)
                        == first_owner_in_column(self.board@, 0, 1, col as int, row as int, 6),
                decreases 6 - row,
            {
                let idxs = [
                    Self::idx(row, col),
                    Self::idx(row, col + 1),
                    Self::idx(row, col + 2),
                    Self::idx(row, col + 3),
                ];
                if let Some(p) = self.check_line(idxs) {
                    return Some(p);
                }
                row += 1;
            }
            col += 1;
        }
        None
    }

    /// The first line up a column that one player holds.
    fn check_vertical(&self) -> (r: Option<Player>)
        ensures
            r == first_owner(self.board@, 1, 0, 0, 3, 0, 7),
    {
        let mut col: u8 = 0;
        while col < COLS
            invariant
                col <= 7,
                first_owner(self.board@, 1, 0, 0, 3, 0, 7) == first_owner(
                    self.board@,
                    1,
                    0,
                    0,
                    3,
                    col as int,
                    7,
                ),
            decreases 7 - col,
        {
            let mut row: u8 = 0;
            while row <= ROWS - WIN_LENGTH
                invariant
                    0 <= row <= 3,
                    col < 7,
                    first_owner(self.board@, 1, 0, 0, 3, 0, 7) == first_owner(
                        self.board@,
                        1,
                        0,
                        0,
                        3,
                        col as int,
                        7,
                    ),
                    first_owner_in_column(self.board@, 1, 0, col as int, 0, 3)
                        == first_owner_in_column(self.board@, 1, 0, col as int, row as int, 3),
                decreases 3 - row,
            {
                let idxs = [
                    Self::idx(row, col),
                    Self::idx(row + 1, col),
                    Self::idx(row + 2, col),
                    Self::idx(row + 3, col),
                ];
                if let Some(p) = self.check_line(idxs) {
                    return Some(p);
                }
                row += 1;
            }
            col += 1;
        }
        None
    }

    /// The first line along a falling diagonal that one player holds.
    fn check_diag_down(&self) -> (r: Option<Player>)
        ensures
            r == first_owner(self.board@, 1, 1, 0, 3, 0, 4),
    {
        let mut col: u8 = 0;
        while col <= COLS - WIN_LENGTH
            invariant
                col <= 4,
                first_owner(self.board@, 1, 1, 0, 3, 0, 4) == first_owner(
                    self.board@,
                    1,
                    1,
                    0,
                    3,
                    col as int,
                    4,
                ),
            decreases 4 - col,
        {
            let mut row: u8 = 0;
            while row <= ROWS - WIN_LENGTH
                invariant
                    0 <= row <= 3,
                    col < 4,
                    first_owner(self.board@, 1, 1, 0, 3, 0, 4) == first_owner(
                        self.board@,
                        1,
                        1,
                        0,
                        3,
                        col as int,
                        4,
                    ),
                    first_owner_in_column(self.board@, 1, 1, col as int, 0, 3)
                        == first_owner_in_column(self.board@, 1, 1, col as int, row as int, 3),
                decreases 3 - row,
            {
                let idxs = [
                    Self::idx(row, col),
                    Self::idx(row + 1, col + 1),
                    Self::idx(row + 2, col + 2),
                    Self::idx(row + 3, col + 3),
                ];
                if let Some(p) = self.check_line(idxs) {
                    return Some(p);
                }
                row += 1;
            }
            col += 1;
        }
        None
    }

    /// The first line along a rising diagonal that one player holds.
    fn check_diag_up(&self) -> (r: Option<Player>)
        ensures
            r == first_owner(self.board@, -1, 1, 3, 6, 0, 4),
    {
        let mut col: u8 = 0;
        while col <= COLS - WIN_LENGTH
            invariant
                col <= 4,
                first_owner(self.board@, -1, 1, 3, 6, 0, 4) == first_owner(
                    self.board@,
                    -1,
                    1,
                    3,
                    6,
                    col as int,
                    4,
                ),
            decreases 4 - col,
        {
            let mut row: u8 = WIN_LENGTH - 1;
            while row < ROWS
                invariant
                    3 <= row <= 6,
                    col < 4,
                    first_owner(self.board@, -1, 1, 3, 6, 0, 4) == first_owner(
                        self.board@,
                        -1,
                        1,
                        3,
                        6,
                        col as int,
                        4,
                    ),
                    first_owner_in_column(self.board@, -1, 1, col as int, 3, 6)
                        == first_owner_in_column(self.board@, -1, 1, col as int, row as int, 6),
                decreases 6 - row,
            {
                let idxs = [
                    Self::idx(row, col),
                    Self::idx(row - 1, col + 1),
                    Self::idx(row - 2, col + 2),
                    Self::idx(row - 3, col + 3),
                ];
                if let Some(p) = self.check_line(idxs) {
                    return Some(p);
                }
                row += 1;
            }
            col += 1;
        }
        None
    }
    /// The winner, if any: the owner of the first four in a row found along
    /// the rows, then up the columns, then along both diagonals.  Draws are
    /// not considered.
    fn winner(&self) -> (r: Option<Player>)
        ensures
            r == winner_of(self.board@),
    {
        if let Some(p) = self.check_horizontal() {
            return Some(p);
        }
        if let Some(p) = self.check_vertical() {
            return Some(p);
        }
        if let Some(p) = self.check_diag_down() {
            return Some(p);
        }
        if let Some(p) = self.check_diag_up() {
            return Some(p);
        }
        None
    }

    /// Whether every cell holds a disc.
    fn is_board_full(&self) -> (r: bool)
        ensures
            r == c4_board_full(self.board@),
    {
        let mut i: usize = 0;
        while i < 42
            invariant
                i <= 42,
                forall|j: int| 0 <= j < i ==> #[trigger] self.board@[j] != C4Cell::Empty,
            decreases 42 - i,
        {
            if self.board[i] == C4Cell::Empty {
                return false;
            }
            i += 1;
        }
        true
    }

    /// Reads a board from 42 characters, row by row from the top: `'X'` for
    /// Player1, `'O'` for Player2, `'.'` for an empty cell.  Any other
    /// character, another length, or a disc with an empty cell below it is
    /// refused.
    pub fn from_str(repr: &str, current_player: Player) -> (r: Result<Self, String>)
        ensures
            r is Ok <==> (repr@.len() == 42 && (forall|i: int|
                0 <= i < 42 ==> #[trigger] is_c4_char(repr@[i])) && no_floating_disc(
                cells_of_string(repr@),
            )),
            r matches Ok(s) ==> s.current_player == current_player && stacked(
                s.board@,
                s.heights@,
            ) && forall|i: int| 0 <= i < 42 ==> s.board@[i] == c4_cell_of_char(repr@[i]),
    {
        let n = repr.unicode_len();
        if n != 42 {
            return Err("Expected 42 cells".to_owned());
        }
        let mut board = [C4Cell::Empty;42];
        let mut i: usize = 0;
        while i < 42
            invariant
                n == repr@.len() == 42,
                i <= 42,
                forall|j: int| 0 <= j < i ==> #[trigger] is_c4_char(repr@[j]),
                forall|j: int| 0 <= j < i ==> board@[j] == c4_cell_of_char(repr@[j]),
            decreases 42 - i,
        {
            let ch = repr.get_char(i);
            let cell = if ch == 'X' {
                C4Cell::P1
            } else if ch == 'O' {
                C4Cell::P2
            } else if ch == '.' {
                C4Cell::Empty
            } else {
                assert(!is_c4_char(repr@[i as int]));
                return Err("Invalid character".to_owned());
            };
            board[i] = cell;
            i += 1;
        }
        let ghost cells = cells_of_string(repr@);
        assert(board@ =~= cells);
        let mut heights = [0u8;7];
        let mut c: u8 = 0;
        while c < COLS
            invariant
                c <= 7,
                board@ == cells,
                cells == cells_of_string(repr@),
                board@.len() == 42,
                forall|c2: int| 0 <= c2 < c ==> #[trigger] heights@[c2] <= 6,
                forall|r: int, c2: int|
                    0 <= r < 6 && 0 <= c2 < c ==> (#[trigger] board@[c4_index(r, c2)]
                        != C4Cell::Empty <==> r >= 6 - heights@[c2]),
                forall|r: int, r2: int, c2: int|
                    0 <= r < r2 < 6 && 0 <= c2 < c && #[trigger] board@[c4_index(r, c2)]
                        != C4Cell::Empty ==> #[trigger] board@[c4_index(r2, c2)] != C4Cell::Empty,
            decreases 7 - c,
        {
            let mut h: u8 = 0;
            let mut r: u8 = 6;
            while r > 0
                invariant
                    c < 7,
                    r <= 6,
                    h <= 6 - r,
                    board@ == cells,
                    cells == cells_of_string(repr@),
                    board@.len() == 42,
                    forall|r2: int|
                        r <= r2 < 6 ==> (#[trigger] board@[c4_index(r2, c as int)] != C4Cell::Empty
                            <==> r2 >= 6 - h),
                decreases r,
            {
                r -= 1;
                if board[Self::idx(r, c)] != C4Cell::Empty {
                    if h != 5 - r {
                        proof {
                            let r1 = r as int;
                            let c1 = c as int;
                            assert(r1 + 1 < 6);
                            assert(board@[c4_index(r1 + 1, c1)] == C4Cell::Empty);
                            assert(board@[c4_index(r1, c1)] != C4Cell::Empty);
                            assert(!no_floating_disc(cells));
                        }
                        return Err("Disc above an empty cell".to_owned());
                    }
                    h += 1;
                }
            }
            let ghost old_heights = heights@;
            heights[c as usize] = h;
            proof {
                assert forall|r1: int, r2: int, c2: int|
                    0 <= r1 < r2 < 6 && 0 <= c2 < c + 1 && #[trigger] board@[c4_index(r1, c2)]
                        != C4Cell::Empty implies #[trigger] board@[c4_index(r2, c2)]
                    != C4Cell::Empty by {
                    if c2 == c {
                    } else {
                        assert(heights@[c2] == old_heights[c2]);
                    }
                }
                assert forall|r1: int, c2: int|
                    0 <= r1 < 6 && 0 <= c2 < c + 1 implies (#[trigger] board@[c4_index(r1, c2)]
                    != C4Cell::Empty <==> r1 >= 6 - heights@[c2]) by {
                    if c2 != c {
                        assert(heights@[c2] == old_heights[c2]);
                    }
                }
            }
            c += 1;
        }
        Ok(ConnectFourState { board, heights, current_player })
    }
}


impl GameState for ConnectFourState {
    type Move = ConnectFourMove;

    open spec fn wf(&self) -> bool {
        stacked(self.board@, self.heights@)
    }

    open spec fn to_move(&self) -> Player {
        self.current_player
    }

    open spec fn moves(&self) -> Seq<ConnectFourMove> {
        open_column_moves(self.heights@, 7)
    }

    open spec fn after(&self, mv: ConnectFourMove) -> ConnectFourState {
        let col = mv.column as int;
        ConnectFourState {
            board: vstd::array::spec_array_update(
                self.board,
                c4_index(5 - self.heights@[col], col),
                disc_of(self.current_player),
            ),
            heights: vstd::array::spec_array_update(
                self.heights,
                col,
                (self.heights@[col] + 1) as u8,
            ),
            current_player: self.current_player.opposite(),
        }
    }

    open spec fn terminal(&self) -> bool {
        winner_of(self.board@) is Some || c4_board_full(self.board@)
    }

    open spec fn outcome(&self) -> Option<int> {
        match winner_of(self.board@) {
            Some(p) => if p == Player::Player1 {
                Some(1)
            } else {
                Some(-1)
            },
            None => if c4_board_full(self.board@) {
                Some(0)
            } else {
                None
            },
        }
    }

    open spec fn heuristic(&self) -> int {
        outcome_or_zero(self.outcome())
    }

    open spec fn ordering_key(&self, mv: ConnectFourMove) -> int {
        0
    }

    open spec fn in_range(&self, mv: ConnectFourMove) -> bool {
        mv.column < 7
    }

    open spec fn plies_left(&self) -> nat {
        free_cells(self.heights@, 7) as nat
    }

    proof fn lemma_terminal_iff_outcome(&self) {
    }

    proof fn lemma_value_ranges(&self) {
    }

    proof fn lemma_move_step(&self, mv: ConnectFourMove) {
        lemma_open_column_moves(self.heights@, 7);
        let col = mv.column as int;
        let h = self.heights@[col];
        let t = self.after(mv);
        let q = c4_index(5 - h, col);
        assert(t.board@ == self.board@.update(q, disc_of(self.current_player)));
        assert(t.heights@ == self.heights@.update(col, (h + 1) as u8));
        assert forall|r: int, c: int| 0 <= r < 6 && 0 <= c < 7 implies (#[trigger] t.board@[c4_index(
            r,
            c,
        )] != C4Cell::Empty <==> r >= 6 - t.heights@[c]) by {
            assert(self.board@[c4_index(r, c)] != C4Cell::Empty <==> r >= 6 - self.heights@[c]);
        }
        lemma_free_cells_drop(self.heights@, col, 7);
        lemma_free_cells_nonneg(self.heights@, 7);
        lemma_free_cells_nonneg(t.heights@, 7);
    }

    proof fn lemma_legal_in_range(&self, mv: ConnectFourMove) {
        lemma_open_column_moves(self.heights@, 7);
    }

    proof fn lemma_live_has_moves(&self) {
        lemma_open_column_moves(self.heights@, 7);
        let i = choose|i: int| 0 <= i < 42 && self.board@[i] == C4Cell::Empty;
        let r = i / 7;
        let c = i % 7;
        assert(c4_index(r, c) == i);
        assert(self.board@[c4_index(r, c)] == C4Cell::Empty);
        assert(self.heights@[c] < 6);
    }

    fn current_player(&self) -> Player {
        self.current_player
    }

    fn legal_moves(&self) -> Vec<ConnectFourMove> {
        let mut moves: Vec<ConnectFourMove> = Vec::new();
        let mut c: u8 = 0;
        while c < COLS
            invariant
                c <= 7,
                moves@ == open_column_moves(self.heights@, c as nat),
            decreases 7 - c,
        {
            if self.heights[c as usize] < ROWS {
                moves.push(ConnectFourMove { column: c });
            }
            c += 1;
        }
        moves
    }

    fn apply_move(&self, mv: &ConnectFourMove) -> ConnectFourState {
        proof {
            lemma_open_column_moves(self.heights@, 7);
        }
        let mut new_board = self.board;
        let mut new_heights = self.heights;
        let col = mv.column;
        let row = (ROWS - 1) - self.heights[col as usize];
        let idx = Self::idx(row, col);
        new_board[idx] = if self.current_player == Player::Player1 {
            C4Cell::P1
        } else {
            C4Cell::P2
        };
        new_heights[col as usize] = self.heights[col as usize] + 1;
        ConnectFourState {
            board: new_board,
            heights: new_heights,
            current_player: opposite_player(self.current_player),
        }
    }

    fn is_terminal(&self) -> bool {
        self.winner().is_some() || self.is_board_full()
    }

    fn terminal_value(&self) -> Option<i32> {
        if let Some(p) = self.winner() {
            return Some(
                match p {
                    Player::Player1 => 1,
                    Player::Player2 => -1,
                },
            );
        }
        if self.is_board_full() {
            return Some(0);
        }
        None
    }

    fn heuristic_value(&self) -> i32 {
        match self.terminal_value() {
            Some(v) => v,
            None => 0,
        }
    }

    fn move_ordering_key(&self, _mv: &ConnectFourMove) -> i32 {
        0
    }
}

} // verus!
