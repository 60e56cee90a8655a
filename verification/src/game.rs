//! What the engine asks of a game, and the words in which its contracts
//! speak of one.
use vstd::prelude::*;

verus! {

/// How a position stands for one player.
#[derive(Debug, PartialEq, Eq, Clone, Copy, Structural)]
pub enum MctsState {
    /// The game is over and the player has won.
    Win,
    /// The game is over and the player has lost.
    Lose,
    /// The game is over and nobody has won.
    Draw,
    /// The game goes on.
    Unfinished,
}

/// A sequential game for two or more players.
///
/// No contract binds an implementation: the engine is verified for whatever
/// the methods return. The predicates below name those returns, so that the
/// engine's own contracts can say which call each value came from.
pub trait MctsGame: Clone {
    /// One move.
    type Action: Copy;

    /// One of the players.
    type Player: Copy + PartialEq;

    /// The moves open to the player to move; empty when none is left.
    fn legal_actions(&self) -> Vec<Self::Action>;

    /// Makes the move `action`.
    fn play(&mut self, action: Self::Action);

    /// The player to move.
    fn player(&self) -> Self::Player;

    /// How the position stands for `player`; `Unfinished` while the game
    /// goes on.
    fn state(&self, player: Self::Player) -> MctsState;

    /// The position that `action` leads to. As provided, it is what `play`
    /// makes of this position for `action`, which is all that the clause
    /// says. The engine makes every move through this method, so that
    /// `follows` can name the position that a move leads to.
    fn advance(self, action: Self::Action) -> (next: Self)
        default_ensures
            exists|made: &mut Self| #[trigger]
                call_ensures(Self::play, (made, action), ()) && *made == self && *final(made)
                    == next,
    {
        let mut next = self;
        next.play(action);
        next
    }
}

/// `actions` is what `legal_actions` returns on `game`.
pub open spec fn offers<G: MctsGame>(game: G, actions: Vec<G::Action>) -> bool {
    call_ensures(G::legal_actions, (&game,), actions)
}

/// `player` is what `player` returns on `game`.
pub open spec fn to_move<G: MctsGame>(game: G, player: G::Player) -> bool {
    call_ensures(G::player, (&game,), player)
}

/// `state` is what `state` returns on `game` for `player`.
pub open spec fn stands<G: MctsGame>(game: G, player: G::Player, state: MctsState) -> bool {
    call_ensures(G::state, (&game, player), state)
}

/// `same` is what `==` returns on the two players.
pub open spec fn same_player<G: MctsGame>(a: G::Player, b: G::Player, same: bool) -> bool {
    call_ensures(<G::Player as PartialEq>::eq, (&a, &b), same)
}

/// `next` is what `advance` returns on `game` for `action`.
pub open spec fn follows<G: MctsGame>(game: G, action: G::Action, next: G) -> bool {
    call_ensures(G::advance, (game, action), next)
}

/// `next` is reached from `game` by one of its legal moves.
pub open spec fn steps<G: MctsGame>(game: G, next: G) -> bool {
    exists|actions: Vec<G::Action>, i: int|
        #![trigger offers(game, actions), actions@[i]]
        offers(game, actions) && 0 <= i < actions@.len() && follows(game, actions@[i], next)
}

/// `line` is a line of play: each position but the last is unfinished for
/// `player`, and the next one is reached from it by one of its legal moves.
pub open spec fn plays_out<G: MctsGame>(line: Seq<G>, player: G::Player) -> bool {
    &&& line.len() >= 1
    &&& forall|j: int|
        0 <= j < line.len() - 1 ==> stands(#[trigger] line[j], player, MctsState::Unfinished)
            && steps(line[j], line[j + 1])
}

/// No position of `G` is unfinished for a player and yet without a legal
/// move.
pub open spec fn never_stuck<G: MctsGame>() -> bool {
    forall|game: G, player: G::Player, actions: Vec<G::Action>|
        #![trigger stands(game, player, MctsState::Unfinished), offers(game, actions)]
        stands(game, player, MctsState::Unfinished) && offers(game, actions) ==> actions@.len() > 0
}

/// Every legal move from an unfinished position lowers `rank`.
pub open spec fn lowers<G: MctsGame>(rank: spec_fn(G) -> nat) -> bool {
    forall|game: G, player: G::Player, actions: Vec<G::Action>, i: int, next: G|
        #![trigger stands(game, player, MctsState::Unfinished), offers(game, actions), follows(game, actions@[i], next)]
        stands(game, player, MctsState::Unfinished) && offers(game, actions) && 0 <= i
            < actions@.len() && follows(game, actions@[i], next) ==> rank(next) < rank(game)
}

/// Every line of play of `G` comes to an end: some measure of a position
/// goes down with every move.
pub open spec fn finite<G: MctsGame>() -> bool {
    exists|rank: spec_fn(G) -> nat| lowers::<G>(rank)
}

/// A rollout can be played on `G`: while the game goes on there is a move
/// to make, and the game does not go on for ever.
pub open spec fn playable<G: MctsGame>() -> bool {
    never_stuck::<G>() && finite::<G>()
}

} // verus!
