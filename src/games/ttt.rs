use crate::game::{outcome_or_zero, GameState, Player, OUTCOME_SCALE};
use crate::solvers::minimax::{depth_value, full_depth_search_is_exact, game_value};
use crate::utils::{decimal_usize, opposite_player, parse_usize, trimmed};
use vstd::prelude::*;
use vstd::string::StrSliceExecFns;

verus! {

/// The contents of one Tic-Tac-Toe cell.
#[derive(Clone, Copy, Debug, PartialEq, Eq, Structural)]
pub enum Cell {
    /// No mark yet.
    Empty,
    /// Player1's mark.
    X,
    /// Player2's mark.
    O,
}

/// A Tic-Tac-Toe position: the 3x3 board, row by row, and the player to move.
///
/// ```text
///  0 | 1 | 2
/// ---+---+---
///  3 | 4 | 5
/// ---+---+---
///  6 | 7 | 8
/// ```
#[derive(Clone, Copy, Debug)]
pub struct TicTacToeState {
    /// The nine cells, row by row.
    pub board: [Cell; 9],
    /// The player whose turn it is.
    pub current_player: Player,
}

/// A Tic-Tac-Toe move: the index (0..=8) of the cell to mark.
#[derive(Clone, Copy, Debug)]
pub struct TicTacToeMove {
    /// The cell to mark.
    pub index: u8,
}

/// The cells of the `k`-th of the eight winning lines: three rows, three
/// columns, two diagonals.
pub open spec fn win_line(k: int) -> (int, int, int) {
    if k == 0 {
        (0, 1, 2)
    } else if k == 1 {
        (3, 4, 5)
    } else if k == 2 {
        (6, 7, 8)
    } else if k == 3 {
        (0, 3, 6)
    } else if k == 4 {
        (1, 4, 7)
    } else if k == 5 {
        (2, 5, 8)
    } else if k == 6 {
        (0, 4, 8)
    } else {
        (2, 4, 6)
    }
}

/// Line `k` holds three equal marks.
pub open spec fn line_complete(board: Seq<Cell>, k: int) -> bool {
    let (a, b, c) = win_line(k);
    board[a] == board[b] && board[b] == board[c] && board[a] != Cell::Empty
}

/// Some line holds three equal marks.
pub open spec fn has_complete_line(board: Seq<Cell>) -> bool {
    exists|k: int| 0 <= k < 8 && #[trigger] line_complete(board, k)
}

/// Every cell is marked.
pub open spec fn board_full(board: Seq<Cell>) -> bool {
    forall|i: int| 0 <= i < 9 ==> #[trigger] board[i] != Cell::Empty
}

/// The mark on the first complete line from line `k` on, if any.
pub open spec fn winner_from(board: Seq<Cell>, k: nat) -> Option<Cell>
    decreases 8 - k,
{
    if k >= 8 {
        None
    } else if line_complete(board, k as int) {
        Some(board[win_line(k as int).0])
    } else {
        winner_from(board, k + 1)
    }
}

/// The result of the board: +1 for an X line, -1 for an O line (the first
/// complete line in line order decides), 0 for a full board, else none.
pub open spec fn board_outcome(board: Seq<Cell>) -> Option<int> {
    match winner_from(board, 0) {
        Some(c) => if c == Cell::X {
            Some(1)
        } else {
            Some(-1)
        },
        None => if board_full(board) {
            Some(0)
        } else {
            None
        },
    }
}

/// The moves onto the empty cells among the first `n`, by index.
pub open spec fn empty_cell_moves(board: Seq<Cell>, n: nat) -> Seq<TicTacToeMove>
    decreases n,
{
    if n == 0 {
        seq![]
    } else {
        let prev = empty_cell_moves(board, (n - 1) as nat);
        if board[n - 1] == Cell::Empty {
            prev.push(TicTacToeMove { index: (n - 1) as u8 })
        } else {
            prev
        }
    }
}

/// The mark that `p` puts down.
pub open spec fn mark_of(p: Player) -> Cell {
    if p == Player::Player1 {
        Cell::X
    } else {
        Cell::O
    }
}

/// The static preference of a cell: the centre 3, corners 2, edges 1.
pub open spec fn cell_preference(index: int) -> int {
    if index == 4 {
        3
    } else if index == 0 || index == 2 || index == 6 || index == 8 {
        2
    } else {
        1
    }
}

/// The character that shows a cell: `'.'`, `'X'` or `'O'`.
pub open spec fn cell_char(c: Cell) -> char {
    match c {
        Cell::Empty => '.',
        Cell::X => 'X',
        Cell::O => 'O',
    }
}

/// A character that shows a cell.
pub open spec fn is_cell_char(ch: char) -> bool {
    ch == '.' || ch == 'X' || ch == 'O'
}

/// The cell that a character shows.
pub open spec fn cell_of_char(ch: char) -> Cell {
    if ch == 'X' {
        Cell::X
    } else if ch == 'O' {
        Cell::O
    } else {
        Cell::Empty
    }
}

/// A board string: nine characters, each `'.'`, `'X'` or `'O'`.
pub open spec fn is_board_string(repr: Seq<char>) -> bool {
    repr.len() == 9 && forall|i: int| 0 <= i < 9 ==> #[trigger] is_cell_char(repr[i])
}

/// Reading a board string and showing its cells again gives the string back.
pub proof fn board_string_round_trip(repr: Seq<char>)
    requires
        is_board_string(repr),
    ensures
        Seq::new(9, |i: int| cell_char(cell_of_char(repr[i]))) == repr,
{
    assert(Seq::new(9, |i: int| cell_char(cell_of_char(repr[i]))) =~= repr) by {
        assert forall|i: int| 0 <= i < 9 implies cell_char(cell_of_char(repr[i])) == repr[i] by {
            assert(is_cell_char(repr[i]));
        }
    }
}

proof fn lemma_winner_from(board: Seq<Cell>, k: nat)
    requires
        k <= 8,
    ensures
        winner_from(board, k) is Some <==> exists|j: int| k <= j < 8 && #[trigger] line_complete(
            board,
            j,
        ),
        winner_from(board, k) matches Some(c) ==> c != Cell::Empty,
    decreases 8 - k,
{
    if k < 8 {
        lemma_winner_from(board, k + 1);
    }
}

proof fn lemma_empty_cell_moves(board: Seq<Cell>, n: nat)
    requires
        n <= 9,
        board.len() == 9,
    ensures
        forall|m: TicTacToeMove|
            empty_cell_moves(board, n).contains(m) ==> m.index < n && board[m.index as int]
                == Cell::Empty,
        (exists|i: int| 0 <= i < n && board[i] == Cell::Empty) ==> empty_cell_moves(
            board,
            n,
        ).len() > 0,
    decreases n,
{
    if n > 0 {
        lemma_empty_cell_moves(board, (n - 1) as nat);
        let prev = empty_cell_moves(board, (n - 1) as nat);
        assert forall|m: TicTacToeMove| empty_cell_moves(board, n).contains(m) implies m.index < n
            && board[m.index as int] == Cell::Empty by {
            if !(board[n - 1] == Cell::Empty && m == (TicTacToeMove { index: (n - 1) as u8 })) {
                let k = choose|k: int|
                    0 <= k < empty_cell_moves(board, n).len() && empty_cell_moves(board, n)[k]
                        == m;
                assert(prev[k] == m);
                assert(prev.contains(m));
            }
        }
    }
}

/// Marking an empty cell leaves one move fewer.
proof fn lemma_mark_empty_cell(board: Seq<Cell>, i: int, c: Cell, n: nat)
    requires
        board.len() == 9,
        n <= 9,
        0 <= i < 9,
        board[i] == Cell::Empty,
        c != Cell::Empty,
    ensures
        empty_cell_moves(board.update(i, c), n).len() == empty_cell_moves(board, n).len() - (
        if i < n {
            1int
        } else {
            0
        }),
    decreases n,
{
    if n > 0 {
        lemma_mark_empty_cell(board, i, c, (n - 1) as nat);
    }
}

/// At most `n` moves among the first `n` cells.
proof fn lemma_empty_cell_moves_len(board: Seq<Cell>, n: nat)
    ensures
        empty_cell_moves(board, n).len() <= n,
    decreases n,
{
    if n > 0 {
        lemma_empty_cell_moves_len(board, (n - 1) as nat);
    }
}

/// No Tic-Tac-Toe game lasts more than nine plies, so a search nine plies
/// deep is exact, in units of [`OUTCOME_SCALE`].
pub proof fn depth_nine_is_exact(s: TicTacToeState)
    ensures
        s.plies_left() <= 9,
        depth_value(s, 9) == game_value(s) * OUTCOME_SCALE,
{
    lemma_empty_cell_moves_len(s.board@, 9);
    full_depth_search_is_exact(s, 9);
}

impl Default for TicTacToeState {
    /// The starting position.
    fn default() -> (r: Self)
        ensures
            forall|i: int| 0 <= i < 9 ==> r.board@[i] == Cell::Empty,
            r.current_player == Player::Player1,
    {
        Self::new()
    }
}

impl TicTacToeState {
    /// The empty board with Player1 to move.
    pub fn new() -> (r: Self)
        ensures
            forall|i: int| 0 <= i < 9 ==> r.board@[i] == Cell::Empty,
            r.current_player == Player::Player1,
    {
        TicTacToeState { board: [Cell::Empty;9], current_player: Player::Player1 }
    }

    /// Reads a board from nine characters, row by row: `'X'`, `'O'` or `'.'`
    /// for an empty cell.  Any other character or another length is refused.
    pub fn from_str(repr: &str, current_player: Player) -> (r: Result<Self, String>)
        ensures
            r is Ok <==> is_board_string(repr@),
            r matches Ok(s) ==> s.current_player == current_player && forall|i: int|
                0 <= i < 9 ==> s.board@[i] == cell_of_char(repr@[i]),
    {
        let n = repr.unicode_len();
        let mut board = [Cell::Empty;9];
        let mut i: usize = 0;
        while i < n
            invariant
                n == repr@.len(),
                i <= n,
                forall|j: int| 0 <= j < i ==> #[trigger] is_cell_char(repr@[j]),
                forall|j: int| 0 <= j < i && j < 9 ==> board@[j] == cell_of_char(repr@[j]),
            decreases n - i,
        {
            let ch = repr.get_char(i);
            let cell = if ch == 'X' {
                Cell::X
            } else if ch == 'O' {
                Cell::O
            } else if ch == '.' {
                Cell::Empty
            } else {
                assert(!is_cell_char(repr@[i as int]));
                return Err("Invalid character".to_owned());
            };
            if i < 9 {
                board[i] = cell;
            }
            i += 1;
        }
        if n != 9 {
            return Err("Expected 9 cells".to_owned());
        }
        Ok(TicTacToeState { board, current_player })
    }

    /// Whether line `k` holds three equal marks.
    fn line_is_complete(&self, k: usize) -> (r: bool)
        requires
            k < 8,
        ensures
            r == line_complete(self.board@, k as int),
    {
        let (a, b, c) = win_line_cells(k);
        self.board[a] == self.board[b] && self.board[b] == self.board[c] && self.board[a]
            != Cell::Empty
    }

    /// Whether every cell is marked.
    fn is_board_full(&self) -> (r: bool)
        ensures
            r == board_full(self.board@),
    {
        let mut i: usize = 0;
        while i < 9
            invariant
                i <= 9,
                forall|j: int| 0 <= j < i ==> #[trigger] self.board@[j] != Cell::Empty,
            decreases 9 - i,
        {
            if self.board[i] == Cell::Empty {
                return false;
            }
            i += 1;
        }
        true
    }
}

impl GameState for TicTacToeState {
    type Move = TicTacToeMove;

    open spec fn wf(&self) -> bool {
        true
    }

    open spec fn to_move(&self) -> Player {
        self.current_player
    }

    open spec fn moves(&self) -> Seq<TicTacToeMove> {
        empty_cell_moves(self.board@, 9)
    }

    open spec fn after(&self, mv: TicTacToeMove) -> TicTacToeState {
        TicTacToeState {
            board: vstd::array::spec_array_update(
                self.board,
                mv.index as int,
                mark_of(self.current_player),
            ),
            current_player: self.current_player.opposite(),
        }
    }

    open spec fn terminal(&self) -> bool {
        has_complete_line(self.board@) || board_full(self.board@)
    }

    open spec fn outcome(&self) -> Option<int> {
        board_outcome(self.board@)
    }

    open spec fn heuristic(&self) -> int {
        outcome_or_zero(self.outcome())
    }

    open spec fn ordering_key(&self, mv: TicTacToeMove) -> int {
        cell_preference(mv.index as int)
    }

    open spec fn in_range(&self, mv: TicTacToeMove) -> bool {
        mv.index < 9
    }

    open spec fn plies_left(&self) -> nat {
        self.moves().len()
    }

    proof fn lemma_terminal_iff_outcome(&self) {
        lemma_winner_from(self.board@, 0);
    }

    proof fn lemma_value_ranges(&self) {
    }

    proof fn lemma_move_step(&self, mv: TicTacToeMove) {
        lemma_empty_cell_moves(self.board@, 9);
        lemma_mark_empty_cell(self.board@, mv.index as int, mark_of(self.current_player), 9);
        assert(self.after(mv).board@ == self.board@.update(
            mv.index as int,
            mark_of(self.current_player),
        ));
    }

    proof fn lemma_legal_in_range(&self, mv: TicTacToeMove) {
        lemma_empty_cell_moves(self.board@, 9);
    }

    proof fn lemma_live_has_moves(&self) {
        lemma_empty_cell_moves(self.board@, 9);
    }

    fn current_player(&self) -> Player {
        self.current_player
    }

    fn legal_moves(&self) -> Vec<TicTacToeMove> {
        let mut moves: Vec<TicTacToeMove> = Vec::new();
        let mut i: usize = 0;
        while i < 9
            invariant
                i <= 9,
                moves@ == empty_cell_moves(self.board@, i as nat),
            decreases 9 - i,
        {
            if self.board[i] == Cell::Empty {
                moves.push(TicTacToeMove { index: i as u8 });
            }
            i += 1;
        }
        moves
    }

    fn apply_move(&self, mv: &TicTacToeMove) -> TicTacToeState {
        proof {
            lemma_empty_cell_moves(self.board@, 9);
        }
        let mut new_board = self.board;
        let mark = match self.current_player {
            Player::Player1 => Cell::X,
            Player::Player2 => Cell::O,
        };
        new_board[mv.index as usize] = mark;
        TicTacToeState { board: new_board, current_player: opposite_player(self.current_player) }
    }

    fn is_terminal(&self) -> bool {
        let mut k: usize = 0;
        while k < 8
            invariant
                k <= 8,
                forall|j: int| 0 <= j < k ==> !#[trigger] line_complete(self.board@, j),
            decreases 8 - k,
        {
            if self.line_is_complete(k) {
                return true;
            }
            k += 1;
        }
        self.is_board_full()
    }

    fn terminal_value(&self) -> Option<i32> {
        let mut k: usize = 0;
        while k < 8
            invariant
                k <= 8,
                winner_from(self.board@, 0) == winner_from(self.board@, k as nat),
            decreases 8 - k,
        {
            if self.line_is_complete(k) {
                let (a, _, _) = win_line_cells(k);
                return Some(
                    match self.board[a] {
                        Cell::X => 1,
                        _ => -1,
                    },
                );
            }
            k += 1;
        }
        if self.is_board_full() {
            return Some(0);
        }
        None
    }

    fn heuristic_value(&self) -> i32 {
        match self.terminal_value() {
            Some(v) => v,
            None => 0,
        }
    }

    fn move_ordering_key(&self, mv: &TicTacToeMove) -> i32 {
        match mv.index {
            4 => 3,
            0 | 2 | 6 | 8 => 2,
            _ => 1,
        }
    }
}

/// The cells of winning line `k`.
fn win_line_cells(k: usize) -> (r: (usize, usize, usize))
    requires
        k < 8,
    ensures
        (r.0 as int, r.1 as int, r.2 as int) == win_line(k as int),
        r.0 < 9 && r.1 < 9 && r.2 < 9,
{
    match k {
        0 => (0, 1, 2),
        1 => (3, 4, 5),
        2 => (6, 7, 8),
        3 => (0, 3, 6),
        4 => (1, 4, 7),
        5 => (2, 5, 8),
        6 => (0, 4, 8),
        _ => (2, 4, 6),
    }
}

/// The character that shows a cell.
pub fn cell_to_char(c: Cell) -> (r: char)
    ensures
        r == cell_char(c),
{
    match c {
        Cell::Empty => '.',
        Cell::X => 'X',
        Cell::O => 'O',
    }
}

/// The cell that the text `input` names for a move in `state`, when it is a
/// number from 0 to 8 whose cell is empty.
pub open spec fn move_cell(input: Seq<char>, state: TicTacToeState) -> Option<int> {
    match decimal_usize(trimmed(input)) {
        Some(n) => if n <= 8 && state.board@[n] == Cell::Empty {
            Some(n)
        } else {
            None
        },
        None => None,
    }
}

/// Reads a move from text typed by a player: a cell index from 0 to 8, with
/// white space around it allowed.  Text that is no number, a number past 8 and
/// a marked cell are refused.
pub fn parse_ttt_move(input: &str, state: &TicTacToeState) -> (r: Result<TicTacToeMove, String>)
    ensures
        r is Ok <==> move_cell(input@, *state) is Some,
        r matches Ok(m) ==> move_cell(input@, *state) == Some(m.index as int),
{
    let idx = match parse_usize(input) {
        Some(n) => n,
        None => {
            return Err("Could not parse input as a number in 0..=8".to_owned());
        },
    };
    if idx > 8 {
        return Err("Index must be between 0 and 8".to_owned());
    }
    if state.board[idx] != Cell::Empty {
        return Err("Cell is not empty.".to_owned());
    }
    Ok(TicTacToeMove { index: idx as u8 })
}

} // verus!
