//! What the engine keeps true from one iteration to the next, proved from
//! the relations that say what an iteration does.
use crate::game::{offers, to_move, stands, MctsGame, MctsState};
use crate::links::lemma_grown_is_well_linked;
use crate::mcts::{credited, Mcts};
use crate::node::{
    lemma_shrunk_chains, lemma_shrunk_to_itself, lemma_without_is_shrunk, shrunk, without, Score,
};
use crate::paths::{
    lemma_on_path_goes_up, lemma_passes_are_kept, lemma_passes_none, lemma_passes_root,
    lemma_root_is_on_path, on_path, passes,
};
use vstd::prelude::*;

verus! {

impl<Game: MctsGame> Mcts<Game> {
    /// No node was visited more often than the root.
    pub proof fn lemma_root_is_most_visited(&self, i: int)
        requires
            self.linked(),
            self.ordered(),
            0 <= i < self.nodes().len(),
        ensures
            self.nodes()[i].visits() <= self.nodes()[0].visits(),
        decreases i,
    {
        if i != 0 {
            self.lemma_root_is_most_visited(self.parents()[i]);
        }
    }

    /// A root that is the only node has no child.
    pub proof fn lemma_lone_root_is_childless(&self)
        requires
            self.linked(),
            self.nodes().len() == 1,
        ensures
            self.children()[0].len() == 0,
    {
        if self.children()[0].len() > 0 {
            assert(0 < self.children()[0][0] < 1);
        }
    }

    /// A descent from a root whose position is finished for its mover stops
    /// at the root.
    pub proof fn lemma_finished_root_is_a_leaf<F: Fn(Score, u32, u32) -> u64>(
        &self,
        score: &F,
        path: Seq<int>,
    )
        requires
            self.descent(score, path),
            forall|mover: Game::Player, state: MctsState|
                to_move(self.nodes()[0].game, mover) && #[trigger] stands(
                    self.nodes()[0].game,
                    mover,
                    state,
                ) ==> state != MctsState::Unfinished,
        ensures
            path =~= seq![0int],
    {
        if path.len() > 1 {
            assert(self.halts(path[0], false));
        }
    }

    /// An expansion keeps an engine sound and keeps what it held: the older
    /// nodes stay with their positions, last moves, parents and counters,
    /// and the rollout begins at a node of the tree.
    pub proof fn lemma_expansion(&self, after: &Self, leaf: int, start: int)
        requires
            self.sound(),
            0 <= leaf < self.nodes().len(),
            self.expands_into(after, leaf, start),
        ensures
            after.sound(),
            after.extends(self),
            0 <= start < after.nodes().len(),
            self.nodes()[leaf].actions@.len() > 0 ==> after.nodes().len() == self.nodes().len() + 1,
            self.nodes()[leaf].actions@.len() == 0 ==> after.nodes().len() == self.nodes().len(),
            forall|i: int|
                0 <= i < self.nodes().len() ==> (#[trigger] after.nodes()[i]).visits()
                    == self.nodes()[i].visits(),
            forall|i: int|
                self.nodes().len() <= i < after.nodes().len() ==> (#[trigger] after.nodes()[i]).visits()
                    == 0,
    {
        let n = self.nodes().len() as int;
        assert forall|i: int| 0 <= i < n implies shrunk(
            (#[trigger] self.nodes()[i]).actions@,
            self.nodes()[i].actions@,
        ) by {
            lemma_shrunk_to_itself(self.nodes()[i].actions@);
        }
        if self.nodes()[leaf].actions@.len() > 0 {
            let before = self.nodes()[leaf].actions@;
            let index = choose|index: int|
                0 <= index < before.len() && after.nodes()[leaf].actions@ == #[trigger] without(
                    before,
                    index,
                ) && after.nodes()[n].last_action == Some(before[index]);
            lemma_grown_is_well_linked(self.parents(), self.children(), leaf);
            lemma_without_is_shrunk(before, index);
            assert(after.ordered()) by {
                assert forall|i: int| 0 <= i < after.nodes().len() implies (#[trigger] after.nodes()[i]).counted() by {
                    if i < n && i != leaf {
                        assert(after.nodes()[i] == self.nodes()[i]);
                    }
                }
                assert forall|i: int| 1 <= i < after.nodes().len() implies after.nodes()[i].visits()
                    <= after.nodes()[#[trigger] after.parents()[i]].visits() by {
                    if i < n {
                        assert(after.parents()[i] == self.parents()[i]);
                        let p = self.parents()[i];
                        if i != leaf {
                            assert(after.nodes()[i] == self.nodes()[i]);
                        }
                        if p != leaf {
                            assert(after.nodes()[p] == self.nodes()[p]);
                        }
                    }
                }
            }
            assert(after.labelled()) by {
                if leaf != 0 {
                    assert(after.nodes()[0] == self.nodes()[0]);
                }
                assert forall|i: int| 1 <= i < after.nodes().len() implies (#[trigger] after.nodes()[i]).last_action
                    is Some by {
                    if i < n && i != leaf {
                        assert(after.nodes()[i] == self.nodes()[i]);
                    }
                }
            }
            assert(after.supplied()) by {
                assert forall|i: int| 0 <= i < after.nodes().len() implies (#[trigger] after.nodes()[i]).offered() by {
                    if i == n {
                        lemma_shrunk_to_itself(after.nodes()[n].actions@);
                        assert(offers(after.nodes()[n].game, after.nodes()[n].actions));
                    } else if i == leaf {
                        after.nodes()[leaf].lemma_offered_is_kept(&self.nodes()[leaf]);
                    } else {
                        assert(after.nodes()[i] == self.nodes()[i]);
                        assert(self.nodes()[i].offered());
                    }
                }
            }
            assert(after.derived()) by {
                assert forall|i: int| 1 <= i < after.nodes().len() implies (#[trigger] after.nodes()[i]).reached_from(
                    &after.nodes()[after.parents()[i]],
                ) by {
                    if i == n {
                        assert(after.parents()[n] == leaf);
                        after.nodes()[n].lemma_reached_is_kept(
                            &after.nodes()[leaf],
                            &after.nodes()[n],
                            &self.nodes()[leaf],
                        );
                    } else {
                        let p = self.parents()[i];
                        assert(after.parents()[i] == p);
                        if i != leaf {
                            assert(after.nodes()[i] == self.nodes()[i]);
                        }
                        if p != leaf {
                            assert(after.nodes()[p] == self.nodes()[p]);
                        }
                        assert(self.nodes()[i].reached_from(&self.nodes()[p]));
                        after.nodes()[i].lemma_reached_is_kept(
                            &after.nodes()[p],
                            &self.nodes()[i],
                            &self.nodes()[p],
                        );
                    }
                }
            }
            assert(after.extends(self)) by {
                assert forall|i: int|
                    #![trigger after.nodes()[i]]
                    #![trigger after.parents()[i]]
                    #![trigger after.children()[i]]
                    0 <= i < n implies after.keeps(self, i) by {
                    if i != leaf {
                        assert(after.nodes()[i] == self.nodes()[i]);
                    }
                }
            }
            assert forall|i: int| 0 <= i < n implies (#[trigger] after.nodes()[i]).visits()
                == self.nodes()[i].visits() by {
                if i != leaf {
                    assert(after.nodes()[i] == self.nodes()[i]);
                }
            }
        }
    }

    /// The root's visits have grown by the number of the rollouts.
    pub proof fn lemma_root_counts_every_rollout(&self, before: &Self, starts: Seq<int>)
        requires
            self.linked(),
            before.nodes().len() >= 1,
            self.counts_from(before, starts),
        ensures
            self.nodes()[0].visits() == before.nodes()[0].visits() + starts.len(),
    {
        lemma_passes_root(self.parents(), self.children(), starts);
    }

    /// A counted rollout raises a node's visits by one, and lowers no
    /// counter.
    proof fn lemma_credit_counts(&self, i: int, state: MctsState)
        requires
            self.linked(),
            self.ordered(),
            0 <= i < self.nodes().len(),
            self.nodes()[0].visits() < u32::MAX,
            state != MctsState::Unfinished,
        ensures
            credited(self.nodes()[i], state).visits() == self.nodes()[i].visits() + 1,
            credited(self.nodes()[i], state).won >= self.nodes()[i].won,
            credited(self.nodes()[i], state).lost >= self.nodes()[i].lost,
            credited(self.nodes()[i], state).drawn >= self.nodes()[i].drawn,
    {
        self.lemma_root_is_most_visited(i);
    }

    /// Counting a rollout keeps an engine sound, raises by one the visits
    /// of the nodes from where the rollout began up to the root, and leaves
    /// every other visit count and everything else as it was.
    pub proof fn lemma_count(&self, after: &Self, start: int, state: MctsState)
        requires
            self.sound(),
            0 <= start < self.nodes().len(),
            self.nodes()[0].visits() < u32::MAX,
            state != MctsState::Unfinished,
            self.counts_into(after, start, state),
        ensures
            after.sound(),
            after.extends(self),
            forall|i: int|
                0 <= i < self.nodes().len() && on_path(self.parents(), start, i) ==> (
                #[trigger] after.nodes()[i]).visits() == self.nodes()[i].visits() + 1,
            forall|i: int|
                0 <= i < self.nodes().len() && !on_path(self.parents(), start, i) ==> (
                #[trigger] after.nodes()[i]).visits() == self.nodes()[i].visits(),
            after.nodes()[0].visits() == self.nodes()[0].visits() + 1,
    {
        let n = self.nodes().len() as int;
        let parents = self.parents();
        assert forall|i: int| 0 <= i < n implies {
            &&& (#[trigger] after.nodes()[i]).game == self.nodes()[i].game
            &&& after.nodes()[i].last_action == self.nodes()[i].last_action
            &&& after.nodes()[i].actions == self.nodes()[i].actions
            &&& after.nodes()[i].won >= self.nodes()[i].won
            &&& after.nodes()[i].lost >= self.nodes()[i].lost
            &&& after.nodes()[i].drawn >= self.nodes()[i].drawn
            &&& after.nodes()[i].visits() == self.nodes()[i].visits() + if on_path(
                parents,
                start,
                i,
            ) {
                1int
            } else {
                0int
            }
        } by {
            self.lemma_credit_counts(i, state);
        }
        lemma_root_is_on_path(parents, self.children(), start);
        assert(after.ordered()) by {
            assert forall|i: int| 0 <= i < n implies (#[trigger] after.nodes()[i]).counted() by {
                self.lemma_root_is_most_visited(i);
            }
            assert forall|i: int| 1 <= i < n implies after.nodes()[i].visits() <= after.nodes()[
                #[trigger] after.parents()[i]].visits() by {
                let p = parents[i];
                assert(after.nodes()[p].visits() >= self.nodes()[p].visits());
                if on_path(parents, start, i) {
                    lemma_on_path_goes_up(parents, start, i);
                }
            }
        }
        assert(after.labelled()) by {
            assert(after.nodes()[0].last_action == self.nodes()[0].last_action);
            assert forall|i: int| 1 <= i < n implies (#[trigger] after.nodes()[i]).last_action
                is Some by {
                assert(self.nodes()[i].last_action is Some);
            }
        }
        assert(after.supplied()) by {
            assert forall|i: int| 0 <= i < n implies (#[trigger] after.nodes()[i]).offered() by {
                assert(self.nodes()[i].offered());
                lemma_shrunk_to_itself(self.nodes()[i].actions@);
                after.nodes()[i].lemma_offered_is_kept(&self.nodes()[i]);
            }
        }
        assert(after.derived()) by {
            assert forall|i: int| 1 <= i < n implies (#[trigger] after.nodes()[i]).reached_from(
                &after.nodes()[after.parents()[i]],
            ) by {
                let p = parents[i];
                assert(self.nodes()[i].reached_from(&self.nodes()[p]));
                after.nodes()[i].lemma_reached_is_kept(
                    &after.nodes()[p],
                    &self.nodes()[i],
                    &self.nodes()[p],
                );
            }
        }
        assert(after.extends(self)) by {
            assert forall|i: int|
                #![trigger after.nodes()[i]]
                #![trigger after.parents()[i]]
                #![trigger after.children()[i]]
                0 <= i < n implies after.keeps(self, i) by {
                lemma_shrunk_to_itself(self.nodes()[i].actions@);
            }
        }
    }

    /// What extends an engine that extends another extends that one too.
    pub proof fn lemma_extends_chains(&self, middle: &Self, first: &Self)
        requires
            self.extends(middle),
            middle.extends(first),
        ensures
            self.extends(first),
    {
        assert forall|i: int|
            #![trigger self.nodes()[i]]
            #![trigger self.parents()[i]]
            #![trigger self.children()[i]]
            0 <= i < first.nodes().len() implies self.keeps(first, i) by {
            assert(middle.keeps(first, i));
            assert(self.keeps(middle, i));
            assert(middle.nodes()[i].game == first.nodes()[i].game);
            assert(self.nodes()[i].game == middle.nodes()[i].game);
            lemma_shrunk_chains(
                self.nodes()[i].actions@,
                middle.nodes()[i].actions@,
                first.nodes()[i].actions@,
            );
            assert forall|k: int| 0 <= k < first.children()[i].len() implies #[trigger] self.children()[i][k]
                == first.children()[i][k] by {
                assert(middle.children()[i][k] == first.children()[i][k]);
                assert(self.children()[i][k] == middle.children()[i][k]);
            }
        }
    }

    /// One iteration keeps an engine well formed and keeps what it held. It
    /// adds at most one node, and it raises by one the visits of the nodes
    /// on the way from some node up to the root, the root among them, and
    /// of no other node.
    pub proof fn lemma_iteration<F: Fn(Score, u32, u32) -> u64>(&self, after: &Self, score: &F)
        requires
            self.wf(),
            self.nodes()[0].visits() < u32::MAX,
            self.iterates(after, score),
        ensures
            after.wf(),
            after.extends(self),
            after.nodes().len() <= self.nodes().len() + 1,
            after.nodes()[0].visits() == self.nodes()[0].visits() + 1,
            exists|start: int| #[trigger] after.counts_from(self, seq![start]),
            self.nodes().len() == 1 && self.nodes()[0].actions@.len() == 0 ==> after.nodes().len()
                == 1,
    {
        let (path, grown, start, end) = choose|
            path: Seq<int>,
            grown: Self,
            start: int,
            end: MctsState,
        |
            #![trigger self.descent(score, path), grown.counts_into(after, start, end)]
            {
                &&& self.descent(score, path)
                &&& self.expands_into(&grown, path.last(), start)
                &&& grown.ends(start, end)
                &&& grown.counts_into(after, start, end)
            };
        let leaf = path.last();
        let n = self.nodes().len() as int;
        self.lemma_expansion(&grown, leaf, start);
        grown.lemma_count(after, start, end);
        after.lemma_extends_chains(&grown, self);
        assert(after.visited()) by {
            assert forall|i: int| 1 <= i < after.nodes().len() implies (#[trigger] after.nodes()[i]).visits()
                >= 1 by {
                if i < n {
                    assert(self.nodes()[i].visits() >= 1);
                    assert(grown.nodes()[i].visits() == self.nodes()[i].visits());
                } else {
                    assert(on_path(grown.parents(), start, start));
                }
            }
        }
        let starts = seq![start];
        assert(after.counts_from(self, starts)) by {
            assert(starts.drop_last() =~= Seq::<int>::empty());
            assert forall|i: int| 0 <= i < after.nodes().len() implies (#[trigger] after.nodes()[i]).visits()
                == (if i < n {
                self.nodes()[i].visits()
            } else {
                0
            }) + passes(after.parents(), starts, i) by {
                assert(passes(after.parents(), starts.drop_last(), i) == 0);
                assert(starts.last() == start);
            }
        }
        if n == 1 && self.nodes()[0].actions@.len() == 0 {
            assert(leaf == 0);
        }
    }

    /// A chain of iterations keeps an engine well formed and keeps what it
    /// held. It adds at most one node per iteration, none if it began with
    /// a root that had neither a child nor an untried move. And there is a
    /// node for each iteration, the one at which its rollout began, such
    /// that every node's visits have grown by the number of those rollouts
    /// that passed through it: for the root, by the number of iterations.
    pub proof fn lemma_search<F: Fn(Score, u32, u32) -> u64>(stages: Seq<Self>, score: &F)
        requires
            stages.len() >= 1,
            stages[0].wf(),
            stages[0].nodes()[0].visits() + stages.len() - 1 <= u32::MAX,
            Self::searched(stages, score),
        ensures
            stages.last().wf(),
            stages.last().extends(&stages[0]),
            stages.last().nodes().len() <= stages[0].nodes().len() + stages.len() - 1,
            stages.last().nodes()[0].visits() == stages[0].nodes()[0].visits() + stages.len() - 1,
            exists|starts: Seq<int>|
                starts.len() == stages.len() - 1 && #[trigger] stages.last().counts_from(
                    &stages[0],
                    starts,
                ),
            stages[0].nodes().len() == 1 && stages[0].nodes()[0].actions@.len() == 0
                ==> stages.last().nodes().len() == 1,
        decreases stages.len(),
    {
        let first = stages[0];
        if stages.len() == 1 {
            let none = Seq::<int>::empty();
            assert(first.extends(&first)) by {
                assert forall|i: int| 0 <= i < first.nodes().len() implies shrunk(
                    (#[trigger] first.nodes()[i]).actions@,
                    first.nodes()[i].actions@,
                ) by {
                    lemma_shrunk_to_itself(first.nodes()[i].actions@);
                }
            }
            assert(first.counts_from(&first, none));
        } else {
            let earlier = stages.drop_last();
            let before = earlier.last();
            let after = stages.last();
            assert(Self::searched(earlier, score)) by {
                assert forall|k: int| 0 <= k < earlier.len() - 1 implies (#[trigger] earlier[k]).iterates(
                    &earlier[k + 1],
                    score,
                ) by {
                    assert(stages[k].iterates(&stages[k + 1], score));
                }
            }
            Self::lemma_search(earlier, score);
            assert(stages[stages.len() - 2].iterates(&stages[stages.len() - 2 + 1], score));
            before.lemma_iteration(&after, score);
            after.lemma_extends_chains(&before, &first);
            let starts = choose|starts: Seq<int>|
                starts.len() == earlier.len() - 1 && #[trigger] before.counts_from(&first, starts);
            let start = choose|start: int| #[trigger] after.counts_from(&before, seq![start]);
            first.lemma_counts_chain(&before, &after, starts, start);
            if first.nodes().len() == 1 && first.nodes()[0].actions@.len() == 0 {
                assert(shrunk(before.nodes()[0].actions@, first.nodes()[0].actions@));
            }
        }
    }

    /// The counts of a chain of iterations and of one more iteration add
    /// up. `self` is the engine at the start, `before` and `after` the
    /// engines on either side of the last iteration.
    proof fn lemma_counts_chain(&self, before: &Self, after: &Self, starts: Seq<int>, start: int)
        requires
            self.linked(),
            before.linked(),
            after.linked(),
            before.extends(self),
            after.extends(before),
            after.nodes().len() <= before.nodes().len() + 1,
            before.counts_from(self, starts),
            after.counts_from(before, seq![start]),
        ensures
            after.counts_from(self, starts.push(start)),
    {
        let more = starts.push(start);
        let one = seq![start];
        let n = before.nodes().len() as int;
        assert(more.drop_last() == starts);
        assert(one.drop_last() =~= Seq::<int>::empty());
        assert(one.last() == start);
        assert(0 <= one[0] < after.nodes().len());
        assert forall|k: int| 0 <= k < more.len() implies 0 <= #[trigger] more[k]
            < after.nodes().len() by {
            if k < starts.len() {
                assert(more[k] == starts[k]);
            }
        }
        assert forall|i: int| 0 <= i < after.nodes().len() implies (#[trigger] after.nodes()[i]).visits()
            == (if i < self.nodes().len() {
            self.nodes()[i].visits()
        } else {
            0
        }) + passes(after.parents(), more, i) by {
            assert(passes(after.parents(), one.drop_last(), i) == 0);
            assert(passes(after.parents(), one, i) == if on_path(after.parents(), start, i) {
                1nat
            } else {
                0nat
            });
            if after.nodes().len() == n {
                assert(after.parents() =~= before.parents()) by {
                    assert forall|j: int| 0 <= j < n implies after.parents()[j]
                        == before.parents()[j] by {
                        assert(after.parents()[j] == before.parents()[j]);
                    }
                }
            } else {
                let last = after.parents()[n];
                assert(after.parents() =~= before.parents().push(last)) by {
                    assert forall|j: int| 0 <= j < n implies after.parents()[j]
                        == before.parents()[j] by {
                        assert(after.parents()[j] == before.parents()[j]);
                    }
                }
                lemma_passes_are_kept(before.parents(), last, starts, i);
                if i == n {
                    lemma_passes_none(after.parents(), starts, i);
                }
            }
            if i < n {
                assert(before.nodes()[i].visits() == (if i < self.nodes().len() {
                    self.nodes()[i].visits()
                } else {
                    0
                }) + passes(before.parents(), starts, i));
            }
        }
    }
}

} // verus!
