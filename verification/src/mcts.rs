//! The search engine: a tree of visited positions, grown by one node per
//! iteration, and the choice of a move from what the rollouts have shown.
//!
//! An iteration walks down from the root (`select_leaf`), gives the node
//! where the walk stops one more child (`expand`), plays a rollout from
//! there to the end of the game (`simulate`) and counts the result at every
//! node on the way back up (`back_propagate`). The relation `iterates` says
//! what one iteration does to an engine; `search` is a chain of them.
//!
//! The game's own methods, the comparison of two players and the scoring
//! function handed to `search` are not known here. The contracts therefore
//! say which value was asked of which of them and what follows from each
//! answer.
use crate::chance::choose_index;
use crate::game::{
    follows, offers, lowers, to_move, playable, plays_out, stands, steps, MctsGame, MctsState,
};
use crate::links::{
    grown, in_tree, node_index, numbered, tree_append, tree_children, tree_first_child,
    tree_has_children, tree_new, tree_next_sibling, tree_parent, tree_parents, tree_root,
    tree_value, tree_values, well_linked,
};
use crate::node::{lemma_below_chains, shrunk, without, MctsNode, Score};
use crate::paths::{lemma_on_path_goes_up, lemma_on_path_is_below, on_path, passes};
use ego_tree::{NodeId, Tree};
use vstd::prelude::*;

verus! {

/// Whether the descent stops at a node: at a finished position always, at
/// an unfinished one when it has no child yet or still has an untried move.
pub open spec fn stops(state: MctsState, has_children: bool, untried: int) -> bool {
    state != MctsState::Unfinished || !has_children || untried > 0
}

/// Decides `stops` for a node whose position stands as `state` for its
/// mover.
pub fn leaf_rule(state: MctsState, has_children: bool, untried: usize) -> (leaf: bool)
    ensures
        leaf == stops(state, has_children, untried as int),
{
    match state {
        MctsState::Unfinished => !has_children || untried > 0,
        _ => true,
    }
}

/// What a scoring function is asked about: the value of a visited node for
/// the searching player, the node's visits, and its parent's.
pub open spec fn askable(value: Score, played: u32, parent_played: u32) -> bool {
    &&& value.is_share()
    &&& value.den == 2 * played
    &&& 1 <= played <= parent_played
}

/// `score` may be asked about every visited node.
pub open spec fn scores_all<F: Fn(Score, u32, u32) -> u64>(score: &F) -> bool {
    forall|value: Score, played: u32, parent_played: u32|
        askable(value, played, parent_played) ==> #[trigger] call_requires(
            score,
            (value, played, parent_played),
        )
}

/// `best` is the first place in `keys` that holds their greatest value.
pub open spec fn first_max(keys: Seq<u64>, best: int) -> bool {
    &&& 0 <= best < keys.len()
    &&& forall|j: int| 0 <= j < keys.len() ==> keys[j] <= keys[best]
    &&& forall|j: int| 0 <= j < best ==> keys[j] < keys[best]
}

/// Whether a candidate replaces the best key found so far: the first
/// candidate always, a later one when its key is greater.
pub fn improves(key: u64, best: Option<u64>) -> (better: bool)
    ensures
        better == (match best {
            Some(b) => key > b,
            None => true,
        }),
{
    match best {
        Some(b) => key > b,
        None => true,
    }
}

/// `best` is the first place in `values` that holds their greatest value.
pub open spec fn first_best(values: Seq<Score>, best: int) -> bool {
    &&& 0 <= best < values.len()
    &&& forall|j: int| 0 <= j < values.len() ==> (#[trigger] values[j]).at_most(values[best])
    &&& forall|j: int| 0 <= j < best ==> (#[trigger] values[j]).below(values[best])
}

/// `node` after one more rollout that ended in `state` passed through it.
pub open spec fn credited<Game: MctsGame>(node: MctsNode<Game>, state: MctsState) -> MctsNode<
    Game,
> {
    match state {
        MctsState::Win => MctsNode { won: (node.won + 1) as u32, ..node },
        MctsState::Lose => MctsNode { lost: (node.lost + 1) as u32, ..node },
        MctsState::Draw => MctsNode { drawn: (node.drawn + 1) as u32, ..node },
        MctsState::Unfinished => node,
    }
}

pub struct Mcts<Game: MctsGame> {
    tree: Tree<usize>,
    nodes: Vec<MctsNode<Game>>,
    player: Game::Player,
}

impl<Game: MctsGame> Mcts<Game> {
    /// The nodes in the order of their creation; the root is node 0.
    pub closed spec fn nodes(&self) -> Seq<MctsNode<Game>> {
        self.nodes@
    }

    /// For each node the number of its parent; -1 for the root.
    pub closed spec fn parents(&self) -> Seq<int> {
        tree_parents(self.tree)
    }

    /// For each node the numbers of its children, oldest first.
    pub closed spec fn children(&self) -> Seq<Seq<int>> {
        tree_children(self.tree)
    }

    /// The player for whom the search is made.
    pub closed spec fn searcher(&self) -> Game::Player {
        self.player
    }

    /// The tree's node `i` refers to `nodes()[i]`.
    pub closed spec fn stored(&self) -> bool {
        &&& tree_values(self.tree).len() == self.nodes@.len()
        &&& numbered(self.tree)
    }

    /// The links describe a tree over the nodes.
    pub open spec fn linked(&self) -> bool {
        &&& self.stored()
        &&& well_linked(self.parents(), self.children())
        &&& self.parents().len() == self.nodes().len()
    }

    /// The counters fit their type, and no node was visited more often than
    /// its parent.
    pub open spec fn ordered(&self) -> bool {
        &&& forall|i: int| 0 <= i < self.nodes().len() ==> (#[trigger] self.nodes()[i]).counted()
        &&& forall|i: int|
            1 <= i < self.nodes().len() ==> self.nodes()[i].visits() <= self.nodes()[
                #[trigger] self.parents()[i]].visits()
    }

    /// The root has no last move; every other node has one.
    pub open spec fn labelled(&self) -> bool {
        &&& self.nodes()[0].last_action is None
        &&& forall|i: int|
            1 <= i < self.nodes().len() ==> (#[trigger] self.nodes()[i]).last_action is Some
    }

    /// The untried moves of every node are legal moves of its position.
    pub open spec fn supplied(&self) -> bool {
        forall|i: int| 0 <= i < self.nodes().len() ==> (#[trigger] self.nodes()[i]).offered()
    }

    /// Every node but the root holds the position that its last move leads
    /// to from a copy of its parent's position.
    pub open spec fn derived(&self) -> bool {
        forall|i: int|
            1 <= i < self.nodes().len() ==> (#[trigger] self.nodes()[i]).reached_from(
                &self.nodes()[self.parents()[i]],
            )
    }

    /// What holds of an engine at every moment.
    pub open spec fn sound(&self) -> bool {
        &&& self.linked()
        &&& self.ordered()
        &&& self.labelled()
        &&& self.supplied()
        &&& self.derived()
    }

    /// Every node but the root was visited.
    pub open spec fn visited(&self) -> bool {
        forall|i: int| 1 <= i < self.nodes().len() ==> (#[trigger] self.nodes()[i]).visits() >= 1
    }

    /// What holds of an engine between two iterations.
    pub open spec fn wf(&self) -> bool {
        &&& self.sound()
        &&& self.visited()
    }

    /// `leaf` is what the rule `stops` gives for node `i`, with the state
    /// that the node's position reports for its own mover.
    pub open spec fn halts(&self, i: int, leaf: bool) -> bool {
        exists|mover: Game::Player, state: MctsState|
            to_move(self.nodes()[i].game, mover) && #[trigger] stands(
                self.nodes()[i].game,
                mover,
                state,
            ) && leaf == stops(
                state,
                self.children()[i].len() > 0,
                self.nodes()[i].actions@.len() as int,
            )
    }

    /// `key` is what `score` returns for node `i`, asked with the node's
    /// value for the searching player, its visits and its parent's. The
    /// value is the share of the wins if the searching player compares
    /// equal to the player to move at the parent, who made the move into
    /// the node; else it is the share of the losses.
    pub open spec fn rated<F: Fn(Score, u32, u32) -> u64>(
        &self,
        score: &F,
        i: int,
        key: u64,
    ) -> bool {
        exists|own: bool|
            #[trigger] self.nodes()[self.parents()[i]].turn_is(self.searcher(), own) && call_ensures(
                score,
                (
                    self.nodes()[i].value(own),
                    self.nodes()[i].visits() as u32,
                    self.nodes()[self.parents()[i]].visits() as u32,
                ),
                key,
            )
    }

    /// Child `c` of node `p` is the one that the descent prefers: the first
    /// of the children whose key, as `score` returned it, is the greatest.
    pub open spec fn favours<F: Fn(Score, u32, u32) -> u64>(
        &self,
        score: &F,
        p: int,
        c: int,
    ) -> bool {
        exists|keys: Seq<u64>, best: int|
            {
                &&& keys.len() == self.children()[p].len()
                &&& forall|k: int|
                    0 <= k < keys.len() ==> self.rated(score, self.children()[p][k], #[trigger] keys[k])
                &&& #[trigger] first_max(keys, best)
                &&& c == self.children()[p][best]
            }
    }

    /// `path` is a descent from the root: it passes only nodes at which the
    /// descent does not stop, goes each time to the child that `score`
    /// favours, and ends at a node at which the descent stops.
    pub open spec fn descent<F: Fn(Score, u32, u32) -> u64>(
        &self,
        score: &F,
        path: Seq<int>,
    ) -> bool {
        &&& path.len() >= 1
        &&& path[0] == 0
        &&& forall|j: int| 0 <= j < path.len() ==> 0 <= #[trigger] path[j] < self.nodes().len()
        &&& forall|j: int|
            0 <= j < path.len() - 1 ==> self.halts(#[trigger] path[j], false) && self.favours(
                score,
                path[j],
                path[j + 1],
            )
        &&& self.halts(path.last(), true)
    }

    /// `after` is this engine with one node more: a child of node `leaf`,
    /// reached by one of the moves that were untried there. That move has
    /// left the untried moves of `leaf`; nothing else has changed. The
    /// child holds the position that the move leads to from a copy of the
    /// position of `leaf`; it is unvisited, and its untried moves are what
    /// `legal_actions` returns on its position.
    pub open spec fn grows_into(&self, after: &Self, leaf: int) -> bool {
        let n = self.nodes().len() as int;
        let before = self.nodes()[leaf].actions@;
        exists|index: int|
            {
                &&& 0 <= index < before.len()
                &&& after.nodes().len() == n + 1
                &&& after.parents() == grown(self.parents(), self.children(), leaf).0
                &&& after.children() == grown(self.parents(), self.children(), leaf).1
                &&& forall|i: int|
                    0 <= i < n && i != leaf ==> #[trigger] after.nodes()[i] == self.nodes()[i]
                &&& after.nodes()[leaf].game == self.nodes()[leaf].game
                &&& after.nodes()[leaf].last_action == self.nodes()[leaf].last_action
                &&& after.nodes()[leaf].won == self.nodes()[leaf].won
                &&& after.nodes()[leaf].lost == self.nodes()[leaf].lost
                &&& after.nodes()[leaf].drawn == self.nodes()[leaf].drawn
                &&& after.nodes()[leaf].actions@ == #[trigger] without(before, index)
                &&& after.nodes()[n].last_action == Some(before[index])
                &&& after.nodes()[n].reached_from(&self.nodes()[leaf])
                &&& after.nodes()[n].visits() == 0
                &&& offers(after.nodes()[n].game, after.nodes()[n].actions)
            }
    }

    /// `after` is this engine once node `leaf` was expanded, and `start`
    /// the node at which the rollout then begins: the new child, if a move
    /// was untried at `leaf`; else `leaf` itself, in an engine that has not
    /// changed.
    pub open spec fn expands_into(&self, after: &Self, leaf: int, start: int) -> bool {
        &&& after.stored()
        &&& after.searcher() == self.searcher()
        &&& if self.nodes()[leaf].actions@.len() > 0 {
            self.grows_into(after, leaf) && start == self.nodes().len()
        } else {
            start == leaf && after.nodes() == self.nodes() && after.parents() == self.parents()
                && after.children() == self.children()
        }
    }

    /// `end` can be the result of a rollout from node `start`: there is a
    /// line of play from a copy of the node's position to a position that
    /// is finished for the searching player and stands as `end` for that
    /// player.
    pub open spec fn ends(&self, start: int, end: MctsState) -> bool {
        &&& end != MctsState::Unfinished
        &&& exists|line: Seq<Game>|
            {
                &&& #[trigger] plays_out(line, self.searcher())
                &&& cloned(self.nodes()[start].game, line[0])
                &&& stands(line.last(), self.searcher(), end)
            }
    }

    /// `after` is this engine once a rollout that began at node `start` and
    /// ended in `state` was counted: at `start` and at every node above it,
    /// and nowhere else.
    pub open spec fn counts_into(&self, after: &Self, start: int, state: MctsState) -> bool {
        &&& after.stored()
        &&& after.searcher() == self.searcher()
        &&& after.parents() == self.parents()
        &&& after.children() == self.children()
        &&& after.nodes().len() == self.nodes().len()
        &&& forall|i: int|
            0 <= i < self.nodes().len() ==> #[trigger] after.nodes()[i] == if on_path(
                self.parents(),
                start,
                i,
            ) {
                credited(self.nodes()[i], state)
            } else {
                self.nodes()[i]
            }
    }

    /// `after` is this engine one iteration later: after a descent to some
    /// node, the expansion of that node, a rollout from where the expansion
    /// says, and the count of the rollout's end.
    pub open spec fn iterates<F: Fn(Score, u32, u32) -> u64>(
        &self,
        after: &Self,
        score: &F,
    ) -> bool {
        exists|path: Seq<int>, grown: Self, start: int, end: MctsState|
            #![trigger self.descent(score, path), grown.counts_into(after, start, end)]
            {
                &&& self.descent(score, path)
                &&& self.expands_into(&grown, path.last(), start)
                &&& grown.ends(start, end)
                &&& grown.counts_into(after, start, end)
            }
    }

    /// Each engine of `stages` is the one before it, one iteration later.
    pub open spec fn searched<F: Fn(Score, u32, u32) -> u64>(
        stages: Seq<Self>,
        score: &F,
    ) -> bool {
        forall|k: int|
            0 <= k < stages.len() - 1 ==> (#[trigger] stages[k]).iterates(&stages[k + 1], score)
    }

    /// Node `i` is in this engine what it was in `before`, but for children
    /// added, untried moves taken away and counters raised.
    pub open spec fn keeps(&self, before: &Self, i: int) -> bool {
        &&& self.parents()[i] == before.parents()[i]
        &&& before.children()[i].len() <= self.children()[i].len()
        &&& forall|k: int|
            0 <= k < before.children()[i].len() ==> #[trigger] self.children()[i][k]
                == before.children()[i][k]
        &&& self.nodes()[i].game == before.nodes()[i].game
        &&& self.nodes()[i].last_action == before.nodes()[i].last_action
        &&& shrunk(self.nodes()[i].actions@, before.nodes()[i].actions@)
        &&& self.nodes()[i].won >= before.nodes()[i].won
        &&& self.nodes()[i].lost >= before.nodes()[i].lost
        &&& self.nodes()[i].drawn >= before.nodes()[i].drawn
    }

    /// This engine is `before` after some iterations: it searches for the
    /// same player, and the nodes of `before` are still there with their
    /// positions, last moves and parents.
    pub open spec fn extends(&self, before: &Self) -> bool {
        &&& before.nodes().len() <= self.nodes().len()
        &&& self.searcher() == before.searcher()
        &&& forall|i: int|
            #![trigger self.nodes()[i]]
            #![trigger self.parents()[i]]
            #![trigger self.children()[i]]
            0 <= i < before.nodes().len() ==> self.keeps(before, i)
    }

    /// The visits of every node are those it had in `before`, none for a
    /// node that is new, and one more for each of the rollouts begun at
    /// `starts` that passed through it.
    pub open spec fn counts_from(&self, before: &Self, starts: Seq<int>) -> bool {
        &&& forall|k: int| 0 <= k < starts.len() ==> 0 <= #[trigger] starts[k] < self.nodes().len()
        &&& forall|i: int|
            0 <= i < self.nodes().len() ==> (#[trigger] self.nodes()[i]).visits() == (if i
                < before.nodes().len() {
                before.nodes()[i].visits()
            } else {
                0
            }) + passes(self.parents(), starts, i)
    }

    /// `value` is the value of node `i` for the searching player: the
    /// share of the wins if the searching player compares equal to the
    /// player to move at the node's parent, else the share of the losses.
    pub open spec fn valued(&self, i: int, value: Score) -> bool {
        exists|own: bool|
            #[trigger] self.nodes()[self.parents()[i]].turn_is(self.searcher(), own) && value
                == self.nodes()[i].value(own)
    }

    /// `action` is a legal move of the root's position; it leads to the
    /// child of the root whose value for the searching player is the
    /// greatest, the first of them on a tie; and `value` is that value.
    pub open spec fn advises(&self, action: Game::Action, value: Score) -> bool {
        exists|values: Seq<Score>, best: int|
            {
                &&& values.len() == self.children()[0].len()
                &&& forall|k: int|
                    0 <= k < values.len() ==> self.valued(self.children()[0][k], #[trigger] values[k])
                &&& #[trigger] first_best(values, best)
                &&& value == values[best]
                &&& self.nodes()[self.children()[0][best]].last_action == Some(action)
                &&& self.nodes()[0].allows(action)
            }
    }

    /// An engine that searches for the player to move in `game`. Its tree is
    /// the root alone, unvisited, with every legal move of `game` untried.
    pub fn new(game: Game) -> (engine: Self)
        ensures
            engine.wf(),
            engine.nodes().len() == 1,
            engine.nodes()[0].game == game,
            offers(game, engine.nodes()[0].actions),
            engine.nodes()[0].visits() == 0,
            engine.children()[0].len() == 0,
            to_move(game, engine.searcher()),
    {
        let player = game.player();
        let mut nodes = Vec::new();
        nodes.push(MctsNode::new(game, None));
        let tree = tree_new(0);
        Mcts { tree, nodes, player }
    }

    /// The number of nodes in the tree.
    pub fn node_count(&self) -> (count: usize)
        ensures
            count == self.nodes().len(),
    {
        self.nodes.len()
    }

    /// Node `index`, in the order of creation; the root is node 0.
    pub fn node(&self, index: usize) -> (node: &MctsNode<Game>)
        requires
            index < self.nodes().len(),
        ensures
            *node == self.nodes()[index as int],
    {
        &self.nodes[index]
    }

    /// The numbers of the root's children, oldest first.
    pub fn root_children(&self) -> (found: Vec<usize>)
        requires
            self.linked(),
        ensures
            found@.len() == self.children()[0].len(),
            forall|k: int| 0 <= k < found@.len() ==> found@[k] == self.children()[0][k],
    {
        let root = tree_root(&self.tree);
        let mut found: Vec<usize> = Vec::new();
        let mut child = tree_first_child(&self.tree, root);
        while child.is_some()
            invariant
                self.linked(),
                found@.len() <= self.children()[0].len(),
                forall|k: int| 0 <= k < found@.len() ==> found@[k] == self.children()[0][k],
                match child {
                    Some(c) => found@.len() < self.children()[0].len() && node_index(c)
                        == self.children()[0][found@.len() as int],
                    None => found@.len() == self.children()[0].len(),
                },
            decreases self.children()[0].len() - found@.len(),
        {
            let c = child.unwrap();
            assert(self.children()[0][found@.len() as int] == node_index(c));
            found.push(tree_value(&self.tree, c));
            child = tree_next_sibling(&self.tree, c);
        }
        found
    }

    /// Runs `iterations` iterations. Each one walks down to a node where
    /// the descent stops, gives that node a child if a move is untried
    /// there, plays a rollout from the child (from the node itself if it
    /// got none) and counts the rollout's end at every node from there up
    /// to the root.
    ///
    /// `score` ranks a child against its siblings during the descent; the
    /// child with the greatest key is taken, the first of them on a tie.
    pub fn search<F: Fn(Score, u32, u32) -> u64>(&mut self, iterations: u64, score: &F)
        requires
            old(self).wf(),
            playable::<Game>(),
            scores_all(score),
            old(self).nodes()[0].visits() + iterations <= u32::MAX,
        ensures
            final(self).wf(),
            exists|stages: Seq<Self>|
                stages.len() == iterations + 1 && stages[0] == *old(self) && stages.last()
                    == *final(self) && #[trigger] Self::searched(stages, score),
            final(self).extends(old(self)),
            final(self).nodes().len() <= old(self).nodes().len() + iterations,
            final(self).nodes()[0].visits() == old(self).nodes()[0].visits() + iterations,
            exists|starts: Seq<int>|
                starts.len() == iterations && #[trigger] final(self).counts_from(old(self), starts),
            old(self).nodes().len() == 1 && old(self).nodes()[0].actions@.len() == 0
                ==> final(self).nodes().len() == 1 && final(self).children()[0].len() == 0,
    {
        let ghost mut stages: Seq<Self> = seq![*self];
        let mut done: u64 = 0;
        while done < iterations
            invariant
                self.wf(),
                playable::<Game>(),
                scores_all(score),
                done <= iterations,
                old(self).nodes()[0].visits() + iterations <= u32::MAX,
                self.nodes()[0].visits() == old(self).nodes()[0].visits() + done,
                stages.len() == done + 1,
                stages[0] == *old(self),
                stages.last() == *self,
                Self::searched(stages, score),
            decreases iterations - done,
        {
            let ghost before = *self;
            let leaf = self.select_leaf(score);
            let ghost path = choose|path: Seq<int>| #[trigger]
                before.descent(score, path) && path.last() == node_index(leaf);
            let expanded = self.expand(leaf);
            let ghost grown = *self;
            let new_leaf = expanded.unwrap_or(leaf);
            proof {
                before.lemma_expansion(&grown, path.last(), node_index(new_leaf) as int);
            }
            let state = self.simulate(new_leaf);
            self.back_propagate(new_leaf, state);
            proof {
                assert(before.iterates(self, score)) by {
                    assert(before.descent(score, path) && grown.counts_into(
                        self,
                        node_index(new_leaf) as int,
                        state,
                    ));
                }
                before.lemma_iteration(self, score);
                let longer = stages.push(*self);
                assert forall|k: int| 0 <= k < longer.len() - 1 implies (#[trigger] longer[k]).iterates(
                    &longer[k + 1],
                    score,
                ) by {
                    if k < stages.len() - 1 {
                        assert(stages[k].iterates(&stages[k + 1], score));
                    }
                }
                stages = longer;
            }
            done += 1;
        }
        proof {
            Self::lemma_search(stages, score);
            if self.nodes().len() == 1 {
                self.lemma_lone_root_is_childless();
            }
        }
    }

    /// The move to make: the legal move of the root's position that leads
    /// to the root's most valuable child for the searching player, with
    /// that child's value. The value is the plain share of good rollouts;
    /// how often a child was visited plays no part.
    pub fn best_action(&self) -> (best: (Game::Action, Score))
        requires
            self.wf(),
            self.children()[0].len() > 0,
        ensures
            self.advises(best.0, best.1),
            best.1.is_share(),
    {
        let root = tree_root(&self.tree);
        let parent = &self.nodes[tree_value(&self.tree, root)];
        let ghost kids = self.children()[0];
        let mut best_score: Option<Score> = None;
        let mut best_child: Option<NodeId> = None;
        let ghost mut values: Seq<Score> = Seq::empty();
        let ghost mut best: int = 0;
        let mut child = tree_first_child(&self.tree, root);
        while child.is_some()
            invariant
                self.wf(),
                *parent == self.nodes()[0],
                kids == self.children()[0],
                values.len() <= kids.len(),
                forall|k: int|
                    0 <= k < values.len() ==> self.valued(kids[k], #[trigger] values[k])
                        && values[k].is_share(),
                match child {
                    Some(c) => values.len() < kids.len() && node_index(c) == kids[values.len() as int],
                    None => values.len() == kids.len(),
                },
                best_score is Some <==> values.len() > 0,
                best_child is Some <==> values.len() > 0,
                values.len() > 0 ==> first_best(values, best) && best_score == Some(values[best])
                    && node_index(best_child.unwrap()) == kids[best],
            decreases kids.len() - values.len(),
        {
            let next_child = child.unwrap();
            let ghost c = node_index(next_child) as int;
            assert(kids[values.len() as int] == c);
            let slot = tree_value(&self.tree, next_child);
            assert(self.parents()[c] == 0);
            let score = self.nodes[slot].score(self.player, parent);
            proof {
                let own = choose|own: bool|
                    parent.turn_is(self.player, own) && score == self.nodes()[c].value(own);
                assert(self.nodes()[self.parents()[c]].turn_is(self.searcher(), own));
                assert(self.valued(c, score));
            }
            let better = match best_score {
                Some(b) => score.exceeds(&b),
                None => true,
            };
            proof {
                let longer = values.push(score);
                if better {
                    assert forall|j: int| 0 <= j < longer.len() implies (#[trigger] longer[j]).at_most(
                        score,
                    ) by {
                        if j < values.len() {
                            lemma_below_chains(values[j], values[best], score);
                        }
                    }
                    assert forall|j: int| 0 <= j < values.len() implies (#[trigger] longer[j]).below(
                        score,
                    ) by {
                        lemma_below_chains(values[j], values[best], score);
                    }
                    best = values.len() as int;
                } else {
                    assert forall|j: int| 0 <= j < longer.len() implies (#[trigger] longer[j]).at_most(
                        longer[best],
                    ) by {
                        if j < values.len() {
                            assert(values[j].at_most(values[best]));
                        }
                    }
                    assert forall|j: int| 0 <= j < best implies (#[trigger] longer[j]).below(
                        longer[best],
                    ) by {
                        assert(values[j].below(values[best]));
                    }
                }
                values = longer;
            }
            if better {
                best_score = Some(score);
                best_child = child;
            }
            child = tree_next_sibling(&self.tree, next_child);
        }
        let slot = tree_value(&self.tree, best_child.unwrap());
        let action = self.nodes[slot].last_action().unwrap();
        proof {
            assert(first_best(values, best));
            assert(self.parents()[kids[best]] == 0);
            assert(self.nodes()[kids[best]].reached_from(&self.nodes()[self.parents()[kids[best]]]));
        }
        (action, best_score.unwrap())
    }

    /// Counts one won rollout at a node.
    fn win(&mut self, node_id: NodeId)
        requires
            old(self).stored(),
            in_tree(old(self).tree, node_id),
            old(self).nodes@[node_index(node_id) as int].won < u32::MAX,
        ensures
            final(self).tree == old(self).tree,
            final(self).player == old(self).player,
            final(self).nodes@ == old(self).nodes@.update(
                node_index(node_id) as int,
                credited(old(self).nodes@[node_index(node_id) as int], MctsState::Win),
            ),
    {
        let slot = tree_value(&self.tree, node_id);
        self.nodes[slot].won += 1;
    }

    /// Counts one lost rollout at a node.
    fn lose(&mut self, node_id: NodeId)
        requires
            old(self).stored(),
            in_tree(old(self).tree, node_id),
            old(self).nodes@[node_index(node_id) as int].lost < u32::MAX,
        ensures
            final(self).tree == old(self).tree,
            final(self).player == old(self).player,
            final(self).nodes@ == old(self).nodes@.update(
                node_index(node_id) as int,
                credited(old(self).nodes@[node_index(node_id) as int], MctsState::Lose),
            ),
    {
        let slot = tree_value(&self.tree, node_id);
        self.nodes[slot].lost += 1;
    }

    /// Counts one drawn rollout at a node.
    fn draw(&mut self, node_id: NodeId)
        requires
            old(self).stored(),
            in_tree(old(self).tree, node_id),
            old(self).nodes@[node_index(node_id) as int].drawn < u32::MAX,
        ensures
            final(self).tree == old(self).tree,
            final(self).player == old(self).player,
            final(self).nodes@ == old(self).nodes@.update(
                node_index(node_id) as int,
                credited(old(self).nodes@[node_index(node_id) as int], MctsState::Draw),
            ),
    {
        let slot = tree_value(&self.tree, node_id);
        self.nodes[slot].drawn += 1;
    }

    /// The key by which a child is ranked against its siblings.
    fn selection_score<F: Fn(Score, u32, u32) -> u64>(&self, node: NodeId, score: &F) -> (key: u64)
        requires
            self.wf(),
            in_tree(self.tree, node),
            node_index(node) > 0,
            scores_all(score),
        ensures
            self.rated(score, node_index(node) as int, key),
    {
        let ghost i = node_index(node) as int;
        assert(0 <= self.parents()[i] < i);
        let parent = tree_parent(&self.tree, node).unwrap();
        let parent_slot = tree_value(&self.tree, parent);
        let parent = &self.nodes[parent_slot];
        let parent_played = parent.played();
        let slot = tree_value(&self.tree, node);
        let child = &self.nodes[slot];
        let value = child.score(self.player, parent);
        let played = child.played();
        let ghost own = choose|own: bool|
            parent.turn_is(self.player, own) && value == child.value(own);
        proof {
            assert(askable(value, played, parent_played));
        }
        let key = score(value, played, parent_played);
        proof {
            assert(self.nodes()[self.parents()[i]].turn_is(self.searcher(), own));
            assert(call_ensures(
                score,
                (
                    self.nodes()[i].value(own),
                    self.nodes()[i].visits() as u32,
                    self.nodes()[self.parents()[i]].visits() as u32,
                ),
                key,
            ));
        }
        key
    }

    /// Walks down from the root, each time to the favoured child, until the
    /// descent stops.
    fn select_leaf<F: Fn(Score, u32, u32) -> u64>(&self, score: &F) -> (leaf: NodeId)
        requires
            self.wf(),
            scores_all(score),
        ensures
            in_tree(self.tree, leaf),
            exists|path: Seq<int>| #[trigger]
                self.descent(score, path) && path.last() == node_index(leaf),
    {
        let mut node_id = tree_root(&self.tree);
        let ghost mut path: Seq<int> = seq![0int];
        while !self.is_leaf(node_id)
            invariant
                self.wf(),
                scores_all(score),
                in_tree(self.tree, node_id),
                path.len() >= 1,
                path[0] == 0,
                path.last() == node_index(node_id),
                forall|j: int| 0 <= j < path.len() ==> 0 <= #[trigger] path[j] < self.nodes().len(),
                forall|j: int|
                    0 <= j < path.len() - 1 ==> self.halts(#[trigger] path[j], false)
                        && self.favours(score, path[j], path[j + 1]),
            ensures
                in_tree(self.tree, node_id),
                self.descent(score, path),
                path.last() == node_index(node_id),
            decreases self.nodes().len() - node_index(node_id),
        {
            let ghost p = node_index(node_id) as int;
            let ghost kids = self.children()[p];
            let mut best_key: Option<u64> = None;
            let mut best_child_id: Option<NodeId> = None;
            let ghost mut keys: Seq<u64> = Seq::empty();
            let ghost mut best: int = 0;
            let mut child_id = tree_first_child(&self.tree, node_id);
            while child_id.is_some()
                invariant
                    self.wf(),
                    scores_all(score),
                    in_tree(self.tree, node_id),
                    p == node_index(node_id),
                    kids == self.children()[p],
                    keys.len() <= kids.len(),
                    forall|k: int|
                        0 <= k < keys.len() ==> self.rated(score, kids[k], #[trigger] keys[k]),
                    match child_id {
                        Some(c) => keys.len() < kids.len() && node_index(c) == kids[keys.len() as int],
                        None => keys.len() == kids.len(),
                    },
                    best_key is Some <==> keys.len() > 0,
                    best_child_id is Some <==> keys.len() > 0,
                    keys.len() > 0 ==> first_max(keys, best) && best_key == Some(keys[best])
                        && node_index(best_child_id.unwrap()) == kids[best],
                decreases kids.len() - keys.len(),
            {
                let c = child_id.unwrap();
                assert(kids[keys.len() as int] == node_index(c));
                let key = self.selection_score(c, score);
                if improves(key, best_key) {
                    best_key = Some(key);
                    best_child_id = child_id;
                    proof {
                        best = keys.len() as int;
                    }
                }
                proof {
                    keys = keys.push(key);
                }
                child_id = tree_next_sibling(&self.tree, c);
            }
            proof {
                assert(self.halts(p, false));
                assert(kids.len() > 0) by {
                    let (mover, state) = choose|mover: Game::Player, state: MctsState|
                        to_move(self.nodes()[p].game, mover) && #[trigger] stands(
                            self.nodes()[p].game,
                            mover,
                            state,
                        ) && false == stops(
                            state,
                            self.children()[p].len() > 0,
                            self.nodes()[p].actions@.len() as int,
                        );
                }
                assert(self.favours(score, p, kids[best])) by {
                    assert(first_max(keys, best));
                }
                path = path.push(kids[best]);
            }
            node_id = best_child_id.unwrap();
        }
        node_id
    }

    /// Gives a node one more child and returns it, if a move is still
    /// untried there; else changes nothing and returns `None`. The move is
    /// picked by `choose_index`, made on a copy of the node's position, and
    /// the position that results becomes the child.
    fn expand(&mut self, leaf: NodeId) -> (child: Option<NodeId>)
        requires
            old(self).sound(),
            in_tree(old(self).tree, leaf),
        ensures
            child is None <==> old(self).nodes()[node_index(leaf) as int].actions@.len() == 0,
            child matches Some(c) ==> old(self).expands_into(
                final(self),
                node_index(leaf) as int,
                node_index(c) as int,
            ),
            child is None ==> old(self).expands_into(
                final(self),
                node_index(leaf) as int,
                node_index(leaf) as int,
            ),
    {
        let ghost l = node_index(leaf) as int;
        let slot = tree_value(&self.tree, leaf);
        let game = self.nodes[slot].game().clone();
        assert(cloned(old(self).nodes()[l].game, game));
        let ghost before = self.nodes[slot as int].actions@;
        if self.nodes[slot].actions().is_empty() {
            return None;
        }
        let actions = self.nodes[slot].actions_mut();
        let len = actions.len();
        let index = choose_index(len);
        let action = actions.swap_remove(index);
        let next = game.advance(action);
        let value = self.nodes.len();
        self.nodes.push(MctsNode::new(next, Some(action)));
        let child = tree_append(&mut self.tree, leaf, value);
        proof {
            assert(self.nodes()[l].actions@ == without(before, index as int));
            let made = self.nodes()[value as int];
            assert(follows(game, made.last_action.unwrap(), made.game));
            assert(old(self).nodes()[l].allows(action)) by {
                assert(old(self).nodes()[l].offered());
                let all = choose|all: Vec<Game::Action>| #[trigger]
                    offers(old(self).nodes()[l].game, all) && shrunk(before, all@);
                assert(all@.contains(before[index as int]));
            }
            assert(made.reached_from(&old(self).nodes()[l]));
            assert(old(self).grows_into(self, l));
        }
        Some(child)
    }

    /// Plays a copy of a node's position to its end, each move picked by
    /// `choose_index` among the legal ones, and returns how the end stands
    /// for the searching player. The tree is not touched.
    fn simulate(&self, leaf: NodeId) -> (end: MctsState)
        requires
            self.linked(),
            in_tree(self.tree, leaf),
            playable::<Game>(),
        ensures
            self.ends(node_index(leaf) as int, end),
    {
        let slot = tree_value(&self.tree, leaf);
        let mut game = self.nodes[slot].game().clone();
        let ghost rank = choose|rank: spec_fn(Game) -> nat| lowers::<Game>(rank);
        let ghost mut line: Seq<Game> = seq![game];
        loop
            invariant
                playable::<Game>(),
                lowers::<Game>(rank),
                plays_out(line, self.searcher()),
                line.last() == game,
                cloned(self.nodes()[node_index(leaf) as int].game, line[0]),
            decreases rank(game),
        {
            let state = game.state(self.player);
            match state {
                MctsState::Unfinished => {
                    let actions = game.legal_actions();
                    let len = actions.len();
                    assert(stands(game, self.searcher(), MctsState::Unfinished) && offers(
                        game,
                        actions,
                    ));
                    let index = choose_index(len);
                    let action = actions[index];
                    let ghost before = game;
                    game = game.advance(action);
                    proof {
                        assert(follows(before, actions@[index as int], game));
                        assert(steps(before, game));
                        let longer = line.push(game);
                        assert forall|j: int| 0 <= j < longer.len() - 1 implies stands(
                            #[trigger] longer[j],
                            self.searcher(),
                            MctsState::Unfinished,
                        ) && steps(longer[j], longer[j + 1]) by {
                            if j < line.len() - 1 {
                                assert(stands(line[j], self.searcher(), MctsState::Unfinished));
                                assert(steps(line[j], line[j + 1]));
                            }
                        }
                        line = longer;
                    }
                },
                state => {
                    assert(stands(line.last(), self.searcher(), state));
                    return state;
                },
            }
        }
    }

    /// Counts a rollout that ended in `state` at `leaf` and at every node
    /// above it, up to the root.
    fn back_propagate(&mut self, leaf: NodeId, state: MctsState)
        requires
            old(self).linked(),
            old(self).ordered(),
            in_tree(old(self).tree, leaf),
            state != MctsState::Unfinished,
            old(self).nodes()[0].visits() < u32::MAX,
        ensures
            old(self).counts_into(final(self), node_index(leaf) as int, state),
    {
        let ghost start = node_index(leaf) as int;
        let ghost parents = self.parents();
        let ghost mut cur: int = start;
        let mut node = Some(leaf);
        while node.is_some()
            invariant
                self.tree == old(self).tree,
                self.player == old(self).player,
                self.nodes@.len() == old(self).nodes@.len(),
                old(self).linked(),
                old(self).ordered(),
                old(self).nodes()[0].visits() < u32::MAX,
                state != MctsState::Unfinished,
                parents == old(self).parents(),
                0 <= start < parents.len(),
                match node {
                    Some(n) => cur == node_index(n) && on_path(parents, start, cur),
                    None => cur == -1,
                },
                forall|i: int|
                    0 <= i < self.nodes@.len() ==> #[trigger] self.nodes@[i] == if on_path(
                        parents,
                        start,
                        i,
                    ) && !on_path(parents, cur, i) {
                        credited(old(self).nodes@[i], state)
                    } else {
                        old(self).nodes@[i]
                    },
            decreases cur + 1,
        {
            let next_node = node.unwrap();
            proof {
                lemma_on_path_is_below(parents, start, cur);
                old(self).lemma_root_is_most_visited(cur);
                assert(self.nodes@[cur] == old(self).nodes@[cur]);
            }
            match state {
                MctsState::Win => self.win(next_node),
                MctsState::Lose => self.lose(next_node),
                MctsState::Draw => self.draw(next_node),
                MctsState::Unfinished => {},
            }
            node = tree_parent(&self.tree, next_node);
            proof {
                let up = parents[cur];
                if cur > 0 {
                    lemma_on_path_goes_up(parents, start, cur);
                }
                assert forall|i: int| 0 <= i < self.nodes@.len() implies #[trigger] self.nodes@[i]
                    == if on_path(parents, start, i) && !on_path(parents, up, i) {
                    credited(old(self).nodes@[i], state)
                } else {
                    old(self).nodes@[i]
                } by {
                    if on_path(parents, up, i) {
                        lemma_on_path_is_below(parents, up, i);
                    }
                }
                cur = up;
            }
        }
    }

    /// Whether the descent stops at a node.
    fn is_leaf(&self, node_id: NodeId) -> (leaf: bool)
        requires
            self.linked(),
            in_tree(self.tree, node_id),
        ensures
            self.halts(node_index(node_id) as int, leaf),
    {
        let slot = tree_value(&self.tree, node_id);
        let node = &self.nodes[slot];
        let mover = node.game().player();
        let state = node.game().state(mover);
        let leaf = leaf_rule(
            state,
            tree_has_children(&self.tree, node_id),
            node.actions().len(),
        );
        assert(to_move(node.game, mover) && stands(node.game, mover, state));
        leaf
    }
}

} // verus!
