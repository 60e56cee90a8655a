//! One node of the search tree: a position and what the rollouts through it
//! have shown.
use crate::game::{follows, offers, to_move, same_player, MctsGame};
use vstd::prelude::*;

verus! {

/// A share of the rollouts, kept exact as the fraction `num / den`.
#[derive(Clone, Copy, Debug, PartialEq, Eq, Structural)]
pub struct Score {
    pub num: u64,
    pub den: u64,
}

impl Score {
    /// The fraction is defined and lies between 0 and 1.
    pub open spec fn is_share(self) -> bool {
        0 < self.den && self.num <= self.den
    }

    /// `self` is less than `other`, for fractions with positive
    /// denominators.
    pub open spec fn below(self, other: Score) -> bool {
        self.num * other.den < other.num * self.den
    }

    /// `self` is at most `other`, for fractions with positive denominators.
    pub open spec fn at_most(self, other: Score) -> bool {
        self.num * other.den <= other.num * self.den
    }

    /// Whether `self` is greater than `other`.
    pub fn exceeds(&self, other: &Score) -> (more: bool)
        ensures
            more == other.below(*self),
    {
        let left: u128 = widen(other.num, self.den);
        let right: u128 = widen(self.num, other.den);
        left < right
    }
}

/// The product of two `u64`, which always fits in a `u128`.
fn widen(a: u64, b: u64) -> (product: u128)
    ensures
        product == a * b,
{
    assert(a * b <= 0xffff_ffff_ffff_ffff * 0xffff_ffff_ffff_ffff) by (nonlinear_arith)
        requires
            0 <= a <= 0xffff_ffff_ffff_ffff,
            0 <= b <= 0xffff_ffff_ffff_ffff,
    ;
    (a as u128) * (b as u128)
}

/// The fractions order as numbers do: what is at most a fraction that lies
/// below another lies below that one too.
pub proof fn lemma_below_chains(a: Score, b: Score, c: Score)
    requires
        a.den > 0,
        b.den > 0,
        c.den > 0,
        a.at_most(b),
        b.below(c),
    ensures
        a.below(c),
{
    let (n1, d1, n2, d2, n3, d3) = (
        a.num as int,
        a.den as int,
        b.num as int,
        b.den as int,
        c.num as int,
        c.den as int,
    );
    assert(n1 * d3 < n3 * d1) by (nonlinear_arith)
        requires
            n1 * d2 <= n2 * d1,
            n2 * d3 < n3 * d2,
            d1 > 0,
            d2 > 0,
            d3 > 0,
            n1 >= 0,
            n2 >= 0,
            n3 >= 0,
    {
        assert(n1 * d2 * d3 <= n2 * d1 * d3);
        assert(n2 * d3 * d1 < n3 * d2 * d1);
        assert(n2 * d1 * d3 == n2 * d3 * d1);
        assert((n1 * d3) * d2 == n1 * d2 * d3);
        assert((n3 * d1) * d2 == n3 * d2 * d1);
    }
}

/// The moves `before` without the one at `index`: the last move takes its
/// place.
pub open spec fn without<A>(before: Seq<A>, index: int) -> Seq<A> {
    before.update(index, before.last()).drop_last()
}

/// Every move of `now` is a move of `before`, and `now` is no longer.
pub open spec fn shrunk<A>(now: Seq<A>, before: Seq<A>) -> bool {
    &&& now.len() <= before.len()
    &&& forall|k: int| 0 <= k < now.len() ==> before.contains(#[trigger] now[k])
}

/// A list has shrunk to itself.
pub proof fn lemma_shrunk_to_itself<A>(moves: Seq<A>)
    ensures
        shrunk(moves, moves),
{
    assert forall|k: int| 0 <= k < moves.len() implies moves.contains(#[trigger] moves[k]) by {}
}

/// Taking one move out of a list shrinks it.
pub proof fn lemma_without_is_shrunk<A>(before: Seq<A>, index: int)
    requires
        0 <= index < before.len(),
    ensures
        shrunk(without(before, index), before),
{
    let now = without(before, index);
    assert forall|k: int| 0 <= k < now.len() implies before.contains(#[trigger] now[k]) by {
        if k == index {
            assert(before[before.len() - 1] == now[k]);
        } else {
            assert(before[k] == now[k]);
        }
    }
}

/// What has shrunk twice has shrunk.
pub proof fn lemma_shrunk_chains<A>(a: Seq<A>, b: Seq<A>, c: Seq<A>)
    requires
        shrunk(a, b),
        shrunk(b, c),
    ensures
        shrunk(a, c),
{
    assert forall|k: int| 0 <= k < a.len() implies c.contains(#[trigger] a[k]) by {
        let j = choose|j: int| 0 <= j < b.len() && b[j] == a[k];
        assert(c.contains(b[j]));
    }
}

/// A position in the tree, the moves not yet tried from it, and the count of
/// the rollouts that passed through it.
pub struct MctsNode<Game: MctsGame> {
    /// The position reached at this node.
    pub game: Game,
    /// The move that led here from the parent; `None` at the root.
    pub last_action: Option<Game::Action>,
    /// The moves of this position that no child stands for yet.
    pub actions: Vec<Game::Action>,
    /// Rollouts through this node that ended in a win for the searching
    /// player.
    pub won: u32,
    /// Rollouts through this node that ended in a loss for the searching
    /// player.
    pub lost: u32,
    /// Rollouts through this node that ended in a draw.
    pub drawn: u32,
}

impl<Game: MctsGame> MctsNode<Game> {
    /// The number of rollouts that passed through this node.
    pub open spec fn visits(&self) -> int {
        self.won + self.lost + self.drawn
    }

    /// The number of rollouts fits the counters' type.
    pub open spec fn counted(&self) -> bool {
        self.visits() <= u32::MAX
    }

    /// The counters as a share of the visits, a draw counting half: the
    /// share of the wins, `(2 won + drawn) / (2 visits)`, if `own`; else the
    /// share of the losses, `(2 lost + drawn) / (2 visits)`, which is what
    /// the first leaves of 1. `own` says that the value is asked for by
    /// the player who made the move into this node.
    pub open spec fn value(&self, own: bool) -> Score {
        Score {
            num: (if own {
                2 * self.won + self.drawn
            } else {
                2 * self.lost + self.drawn
            }) as u64,
            den: (2 * self.visits()) as u64,
        }
    }

    /// The untried moves are moves that `legal_actions` returns on the
    /// node's position.
    pub open spec fn offered(&self) -> bool {
        exists|all: Vec<Game::Action>| #[trigger] offers(self.game, all) && shrunk(self.actions@, all@)
    }

    /// `action` is one of the moves that `legal_actions` returns on this
    /// node's position.
    pub open spec fn allows(&self, action: Game::Action) -> bool {
        exists|all: Vec<Game::Action>| #[trigger] offers(self.game, all) && all@.contains(action)
    }

    /// This node's last move is a legal move of the position of `parent`,
    /// and this node's position is what that move leads to from a copy of
    /// the position of `parent`.
    pub open spec fn reached_from(&self, parent: &Self) -> bool {
        &&& self.last_action is Some
        &&& parent.allows(self.last_action.unwrap())
        &&& exists|copy: Game|
            cloned(parent.game, copy) && #[trigger] follows(
                copy,
                self.last_action.unwrap(),
                self.game,
            )
    }

    /// `own` is what comparing `player` with the player to move in this
    /// node's position gives.
    pub open spec fn turn_is(&self, player: Game::Player, own: bool) -> bool {
        exists|mover: Game::Player| to_move(self.game, mover) && same_player::<Game>(player, mover, own)
    }

    /// A node for `game` that no rollout has visited. Its untried moves are
    /// what `legal_actions` returns on `game`.
    pub fn new(game: Game, last_action: Option<Game::Action>) -> (node: Self)
        ensures
            node.game == game,
            node.last_action == last_action,
            offers(game, node.actions),
            node.offered(),
            node.won == 0,
            node.lost == 0,
            node.drawn == 0,
    {
        let actions = game.legal_actions();
        proof {
            lemma_shrunk_to_itself(actions@);
        }
        MctsNode { actions, game, last_action, won: 0, lost: 0, drawn: 0 }
    }

    /// The position reached at this node.
    pub fn game(&self) -> (game: &Game)
        ensures
            *game == self.game,
    {
        &self.game
    }

    /// The moves not yet tried from this node.
    pub fn actions(&self) -> (actions: &[Game::Action])
        ensures
            actions@ == self.actions@,
    {
        self.actions.as_slice()
    }

    /// The moves not yet tried from this node, to take one out.
    pub fn actions_mut(&mut self) -> (actions: &mut Vec<Game::Action>)
        ensures
            *actions == old(self).actions,
            *final(self) == (MctsNode { actions: *final(actions), ..*old(self) }),
    {
        &mut self.actions
    }

    /// The move that led here from the parent; `None` at the root.
    pub fn last_action(&self) -> (action: Option<Game::Action>)
        ensures
            action == self.last_action,
    {
        self.last_action
    }

    /// The number of rollouts that passed through this node.
    pub fn played(&self) -> (played: u32)
        requires
            self.counted(),
        ensures
            played == self.visits(),
    {
        self.won + self.lost + self.drawn
    }

    /// The value of a visited node from one side: `value(own)`.
    pub fn value_for(&self, own: bool) -> (value: Score)
        requires
            self.counted(),
            self.visits() > 0,
        ensures
            value == self.value(own),
            value.is_share(),
    {
        let played: u64 = self.played() as u64;
        let good: u64 = if own {
            self.won as u64
        } else {
            self.lost as u64
        };
        Score { num: 2 * good + self.drawn as u64, den: 2 * played }
    }

    /// The value for `player` of a visited node whose parent is `parent`.
    /// The move into this node was made by the player to move in the
    /// parent's position: the value is the share of the wins if `player`
    /// compares equal to that player, else the share of the losses.
    pub fn score(&self, player: Game::Player, parent: &Self) -> (value: Score)
        requires
            self.counted(),
            self.visits() > 0,
        ensures
            exists|own: bool| parent.turn_is(player, own) && value == self.value(own),
            value.is_share(),
    {
        let mover = parent.game().player();
        let own = player == mover;
        assert(parent.turn_is(player, own)) by {
            assert(to_move(parent.game, mover) && same_player::<Game>(player, mover, own));
        }
        self.value_for(own)
    }

    /// A node with the position of one whose untried moves are legal, and
    /// with some of that one's untried moves, has legal untried moves too.
    pub proof fn lemma_offered_is_kept(&self, before: &Self)
        requires
            before.offered(),
            self.game == before.game,
            shrunk(self.actions@, before.actions@),
        ensures
            self.offered(),
    {
        let all = choose|all: Vec<Game::Action>| #[trigger]
            offers(before.game, all) && shrunk(before.actions@, all@);
        lemma_shrunk_chains(self.actions@, before.actions@, all@);
        assert(offers(self.game, all));
    }

    /// A node with the position and last move of one that is reached from
    /// its parent is reached from a parent with the same position.
    pub proof fn lemma_reached_is_kept(&self, parent: &Self, before: &Self, parent_before: &Self)
        requires
            before.reached_from(parent_before),
            self.game == before.game,
            self.last_action == before.last_action,
            parent.game == parent_before.game,
        ensures
            self.reached_from(parent),
    {
        let copy = choose|copy: Game|
            cloned(parent_before.game, copy) && #[trigger] follows(
                copy,
                before.last_action.unwrap(),
                before.game,
            );
        assert(follows(copy, self.last_action.unwrap(), self.game));
        let all = choose|all: Vec<Game::Action>| #[trigger]
            offers(parent_before.game, all) && all@.contains(before.last_action.unwrap());
        assert(offers(parent.game, all));
    }

    /// A visited node's value lies between 0 and 1, from either side.
    pub proof fn lemma_value_is_share(&self, own: bool)
        requires
            self.counted(),
            self.visits() > 0,
        ensures
            self.value(own).is_share(),
    {
    }

    /// A node through which every rollout was won is worth 1 to the player
    /// who moved into it and 0 to any other.
    pub proof fn lemma_won_throughout(&self)
        requires
            self.counted(),
            self.visits() > 0,
            self.lost == 0,
            self.drawn == 0,
        ensures
            self.value(true).num == self.value(true).den,
            self.value(false).num == 0,
    {
    }

    /// The two values of a node add up to 1: they have one denominator,
    /// and their numerators add up to it.
    pub proof fn lemma_value_mirrors(&self, own: bool)
        requires
            self.counted(),
        ensures
            self.value(own).den == self.value(!own).den,
            self.value(own).num + self.value(!own).num == self.value(own).den,
    {
    }
}

} // verus!
