use vstd::prelude::*;

verus! {

/// The players of a two-player deterministic game.
#[derive(Clone, Copy, Debug, PartialEq, Eq, Structural)]
pub enum Player {
    Player1,
    Player2,
}

impl Player {
    /// The other player.
    pub open spec fn opposite(self) -> Player {
        match self {
            Player::Player1 => Player::Player2,
            Player::Player2 => Player::Player1,
        }
    }
}

/// Swapping sides twice gives back the same player.
pub proof fn opposite_is_involutive(p: Player)
    ensures
        p.opposite().opposite() == p,
        p.opposite() != p,
{
}

/// Scale that lifts a game outcome (-1, 0, +1) above every heuristic estimate.
pub const OUTCOME_SCALE: i32 = 1_000_000;

/// A deterministic, perfect-information, two-player, turn-based game state.
///
/// Each implementation gives a mathematical model of its states (the spec
/// functions), executable operations that agree with that model, and proofs of
/// the laws that the searches rely on.  All values are from Player1's side:
/// positive is good for Player1.
pub trait GameState: Sized {
    /// A move of this game.
    type Move: Copy;

    /// The states that the operations accept.
    spec fn wf(&self) -> bool;

    /// The player to move.
    spec fn to_move(&self) -> Player;

    /// The legal moves, in the order `legal_moves` lists them.
    spec fn moves(&self) -> Seq<Self::Move>;

    /// The state after `mv` is played.
    spec fn after(&self, mv: Self::Move) -> Self;

    /// Whether the game is over (a win or a draw).
    spec fn terminal(&self) -> bool;

    /// The result of a finished game: +1 Player1 won, -1 Player2 won, 0 draw.
    spec fn outcome(&self) -> Option<int>;

    /// The static estimate of the position.
    spec fn heuristic(&self) -> int;

    /// Priority of `mv` for the side to move: higher is searched first.
    spec fn ordering_key(&self, mv: Self::Move) -> int;

    /// `mv` names a move of this game, legal here or not (a cell, a column).
    spec fn in_range(&self, mv: Self::Move) -> bool;

    /// An upper bound on the number of plies that can still be played.
    spec fn plies_left(&self) -> nat;

    /// A state is over exactly when it has a result.
    proof fn lemma_terminal_iff_outcome(&self)
        requires
            self.wf(),
        ensures
            self.terminal() <==> self.outcome().is_some(),
    ;

    /// Results are -1, 0 or +1, and estimates stay within the scaled results,
    /// strictly so while the game goes on.
    proof fn lemma_value_ranges(&self)
        requires
            self.wf(),
        ensures
            self.outcome() matches Some(v) ==> -1 <= v <= 1,
            -OUTCOME_SCALE <= self.heuristic() <= OUTCOME_SCALE,
            !self.terminal() ==> -OUTCOME_SCALE < self.heuristic() < OUTCOME_SCALE,
    ;

    /// A legal move leads to an accepted state with fewer plies left.
    proof fn lemma_move_step(&self, mv: Self::Move)
        requires
            self.wf(),
            self.moves().contains(mv),
        ensures
            self.after(mv).wf(),
            self.after(mv).plies_left() < self.plies_left(),
    ;

    /// Legal moves are moves of the game.
    proof fn lemma_legal_in_range(&self, mv: Self::Move)
        requires
            self.wf(),
            self.moves().contains(mv),
        ensures
            self.in_range(mv),
    ;

    /// A game that is not over has a legal move.
    proof fn lemma_live_has_moves(&self)
        requires
            self.wf(),
            !self.terminal(),
        ensures
            self.moves().len() > 0,
    ;

    /// Returns the player whose turn it is.
    fn current_player(&self) -> (p: Player)
        requires
            self.wf(),
        ensures
            p == self.to_move(),
    ;

    /// Returns all legal moves from this state.
    fn legal_moves(&self) -> (r: Vec<Self::Move>)
        requires
            self.wf(),
        ensures
            r@ == self.moves(),
    ;

    /// Returns the state after `mv`; `self` is left as it was.
    fn apply_move(&self, mv: &Self::Move) -> (r: Self)
        requires
            self.wf(),
            self.moves().contains(*mv),
        ensures
            r == self.after(*mv),
    ;

    /// Whether the game is over.
    fn is_terminal(&self) -> (r: bool)
        requires
            self.wf(),
        ensures
            r == self.terminal(),
    ;

    /// The result of a finished game, `None` while it goes on.
    fn terminal_value(&self) -> (r: Option<i32>)
        requires
            self.wf(),
        ensures
            r matches Some(v) ==> self.outcome() == Some(v as int),
            r is None ==> self.outcome() is None,
    ;

    /// The static estimate of the position, from Player1's side.
    fn heuristic_value(&self) -> (r: i32)
        requires
            self.wf(),
        ensures
            r == self.heuristic(),
    ;

    /// Priority of `mv` for the side to move: higher is searched first.
    fn move_ordering_key(&self, mv: &Self::Move) -> (r: i32)
        requires
            self.wf(),
            self.in_range(*mv),
        ensures
            r == self.ordering_key(*mv),
    ;
}

/// A state is over exactly when it has a result, in every game.
pub proof fn terminal_iff_has_value<G: GameState>(s: G)
    requires
        s.wf(),
    ensures
        s.terminal() <==> s.outcome().is_some(),
{
    s.lemma_terminal_iff_outcome();
}

/// The estimate that a game uses when it has none of its own: the result of a
/// finished game, else 0.
pub open spec fn outcome_or_zero(outcome: Option<int>) -> int {
    match outcome {
        Some(v) => v,
        None => 0,
    }
}

} // verus!
