use mcts::{Mcts, MctsGame, MctsState, Score};

/// The usual ranking: the value plus sqrt(2 ln(parent) / played), ordered
/// as a number by the bits of the non-negative `f32`.
fn uct(value: Score, played: u32, parent_played: u32) -> u64 {
    let exploit = value.num as f32 / value.den as f32;
    let explore =
        std::f32::consts::SQRT_2 * f32::sqrt(f32::ln(parent_played as f32) / played as f32);
    (exploit + explore).to_bits() as u64
}

fn flat(_value: Score, _played: u32, _parent_played: u32) -> u64 {
    7
}

/// One move decides: 0 wins, 1 loses. The only player is player 0.
#[derive(Clone, Debug)]
struct Pick {
    taken: Option<u8>,
}

impl MctsGame for Pick {
    type Action = u8;
    type Player = u8;

    fn legal_actions(&self) -> Vec<u8> {
        match self.taken {
            None => vec![0, 1],
            Some(_) => vec![],
        }
    }

    fn play(&mut self, action: u8) {
        self.taken = Some(action);
    }

    fn player(&self) -> u8 {
        0
    }

    fn state(&self, player: u8) -> MctsState {
        match (self.taken, player) {
            (None, _) => MctsState::Unfinished,
            (Some(0), 0) => MctsState::Win,
            (Some(0), _) => MctsState::Lose,
            (Some(_), 0) => MctsState::Lose,
            (Some(_), _) => MctsState::Win,
        }
    }
}

/// A position that is over from the start, with a fixed result.
#[derive(Clone, Debug)]
struct Over {
    result: MctsState,
}

impl MctsGame for Over {
    type Action = u8;
    type Player = u8;

    fn legal_actions(&self) -> Vec<u8> {
        vec![]
    }

    fn play(&mut self, _action: u8) {}

    fn player(&self) -> u8 {
        0
    }

    fn state(&self, _player: u8) -> MctsState {
        match self.result {
            MctsState::Win => MctsState::Win,
            MctsState::Lose => MctsState::Lose,
            _ => MctsState::Draw,
        }
    }
}

/// A walk of `left` forced steps; the walker wins at the end.
#[derive(Clone, Debug)]
struct Walk {
    left: u32,
}

impl MctsGame for Walk {
    type Action = u32;
    type Player = u8;

    fn legal_actions(&self) -> Vec<u32> {
        if self.left == 0 {
            vec![]
        } else {
            vec![self.left]
        }
    }

    fn play(&mut self, _action: u32) {
        self.left -= 1;
    }

    fn player(&self) -> u8 {
        0
    }

    fn state(&self, _player: u8) -> MctsState {
        if self.left == 0 {
            MctsState::Win
        } else {
            MctsState::Unfinished
        }
    }
}

/// Two players take 1 or 2 from a heap in turn; who takes the last one
/// wins.
#[derive(Clone, Debug)]
struct Nim {
    heap: u32,
    to_move: u8,
}

impl MctsGame for Nim {
    type Action = u32;
    type Player = u8;

    fn legal_actions(&self) -> Vec<u32> {
        match self.heap {
            0 => vec![],
            1 => vec![1],
            _ => vec![1, 2],
        }
    }

    fn play(&mut self, action: u32) {
        self.heap -= action;
        self.to_move = 1 - self.to_move;
    }

    fn player(&self) -> u8 {
        self.to_move
    }

    fn state(&self, player: u8) -> MctsState {
        if self.heap > 0 {
            MctsState::Unfinished
        } else if player == self.to_move {
            MctsState::Lose
        } else {
            MctsState::Win
        }
    }
}

/// One player, three first moves: 0 wins at once, 1 leads to a choice of
/// four of which one wins, 2 leads to a choice of two that both lose.
#[derive(Clone, Debug)]
struct Gamble {
    first: Option<u8>,
    second: Option<u8>,
}

impl MctsGame for Gamble {
    type Action = u8;
    type Player = u8;

    fn legal_actions(&self) -> Vec<u8> {
        match (self.first, self.second) {
            (None, _) => vec![0, 1, 2],
            (Some(1), None) => vec![0, 1, 2, 3],
            (Some(2), None) => vec![0, 1],
            _ => vec![],
        }
    }

    fn play(&mut self, action: u8) {
        if self.first.is_none() {
            self.first = Some(action);
        } else {
            self.second = Some(action);
        }
    }

    fn player(&self) -> u8 {
        0
    }

    fn state(&self, _player: u8) -> MctsState {
        match (self.first, self.second) {
            (None, _) => MctsState::Unfinished,
            (Some(1), None) => MctsState::Unfinished,
            (Some(2), None) => MctsState::Unfinished,
            (Some(0), _) => MctsState::Win,
            (Some(1), Some(0)) => MctsState::Win,
            _ => MctsState::Lose,
        }
    }
}

fn visits<G: MctsGame>(engine: &Mcts<G>, index: usize) -> u32 {
    engine.node(index).played()
}

#[test]
fn new_engine_is_the_root_alone() {
    let engine = Mcts::new(Pick { taken: None });
    assert_eq!(engine.node_count(), 1);
    assert!(engine.root_children().is_empty());
    let root = engine.node(0);
    assert_eq!(root.played(), 0);
    assert_eq!(root.last_action(), None);
    assert_eq!(root.actions(), &[0, 1]);
    assert_eq!(root.game().taken, None);
}

#[test]
fn winning_move_is_recommended_with_full_score() {
    let mut engine = Mcts::new(Pick { taken: None });
    engine.search(10, &uct);
    let (action, score) = engine.best_action();
    assert_eq!(action, 0);
    assert_eq!(score.num, score.den);
    assert!(score.den > 0);
    assert_eq!(score.num as f32 / score.den as f32, 1.0);
}

#[test]
fn both_moves_of_a_single_ply_are_expanded_once() {
    let mut engine = Mcts::new(Pick { taken: None });
    engine.search(10, &uct);
    assert_eq!(engine.node_count(), 3);
    assert_eq!(engine.root_children(), vec![1, 2]);
    assert!(engine.node(0).actions().is_empty());
    let mut moves = vec![
        engine.node(1).last_action().unwrap(),
        engine.node(2).last_action().unwrap(),
    ];
    moves.sort();
    assert_eq!(moves, vec![0, 1]);
    assert_eq!(visits(&engine, 0), 10);
    assert_eq!(visits(&engine, 1) + visits(&engine, 2), 10);
    for index in 1..3 {
        let node = engine.node(index);
        let won = node.last_action() == Some(0);
        assert_eq!(node.game().taken, node.last_action());
        assert_eq!(node.won, if won { node.played() } else { 0 });
        assert_eq!(node.lost, if won { 0 } else { node.played() });
        assert_eq!(node.drawn, 0);
    }
}

#[test]
fn root_without_moves_stays_childless() {
    let mut engine = Mcts::new(Over { result: MctsState::Draw });
    engine.search(5, &uct);
    assert_eq!(engine.node_count(), 1);
    assert!(engine.root_children().is_empty());
    let root = engine.node(0);
    assert_eq!(root.drawn, 5);
    assert_eq!(root.won, 0);
    assert_eq!(root.lost, 0);
    assert_eq!(root.played(), 5);
    engine.search(0, &uct);
    assert_eq!(engine.node_count(), 1);
    assert_eq!(engine.node(0).played(), 5);
}

#[test]
fn finished_root_is_a_leaf() {
    let mut engine = Mcts::new(Over { result: MctsState::Win });
    engine.search(1, &uct);
    assert_eq!(engine.node_count(), 1);
    assert!(engine.root_children().is_empty());
    assert_eq!(engine.node(0).won, 1);
    assert_eq!(engine.node(0).played(), 1);
}

#[test]
fn lost_root_counts_losses() {
    let mut engine = Mcts::new(Over { result: MctsState::Lose });
    engine.search(3, &flat);
    assert_eq!(engine.node_count(), 1);
    assert_eq!(engine.node(0).lost, 3);
    assert_eq!(engine.node(0).played(), 3);
}

#[test]
fn root_visits_count_the_iterations() {
    let mut engine = Mcts::new(Nim { heap: 7, to_move: 0 });
    engine.search(40, &uct);
    assert_eq!(visits(&engine, 0), 40);
    engine.search(25, &uct);
    assert_eq!(visits(&engine, 0), 65);
    assert!(engine.node_count() <= 66);
    let root = engine.node(0);
    assert_eq!(root.won + root.lost + root.drawn, 65);
}

#[test]
fn children_share_out_the_visits_of_the_root() {
    let mut engine = Mcts::new(Nim { heap: 9, to_move: 0 });
    engine.search(200, &uct);
    let children = engine.root_children();
    assert_eq!(children.len(), 2);
    let mut sum = 0;
    let mut won = 0;
    let mut lost = 0;
    for &child in &children {
        assert!(child >= 1 && child < engine.node_count());
        assert!(visits(&engine, child) >= 1);
        sum += visits(&engine, child);
        won += engine.node(child).won;
        lost += engine.node(child).lost;
    }
    assert_eq!(sum, 200);
    assert_eq!(won, engine.node(0).won);
    assert_eq!(lost, engine.node(0).lost);
}

#[test]
fn every_node_but_the_root_is_visited_and_has_a_move() {
    let mut engine = Mcts::new(Nim { heap: 6, to_move: 1 });
    engine.search(150, &uct);
    assert_eq!(engine.node(0).last_action(), None);
    assert_eq!(engine.node(0).game().heap, 6);
    for index in 1..engine.node_count() {
        let node = engine.node(index);
        assert!(node.played() >= 1);
        assert!(node.played() <= visits(&engine, 0));
        let action = node.last_action().unwrap();
        assert!(action == 1 || action == 2);
        assert!(node.game().heap < 6);
    }
}

#[test]
fn forced_walk_grows_one_node_per_iteration() {
    let mut engine = Mcts::new(Walk { left: 4 });
    engine.search(3, &uct);
    assert_eq!(engine.node_count(), 4);
    assert_eq!(engine.root_children(), vec![1]);
    for index in 1..4 {
        let node = engine.node(index);
        assert_eq!(node.last_action(), Some(5 - index as u32));
        assert_eq!(node.game().left, 4 - index as u32);
        assert_eq!(node.played() as usize, 4 - index);
        assert_eq!(node.won, node.played());
    }
    engine.search(10, &uct);
    assert_eq!(engine.node_count(), 5);
    assert_eq!(visits(&engine, 0), 13);
    assert_eq!(visits(&engine, 4), 10);
    assert!(engine.node(4).actions().is_empty());
    let (action, score) = engine.best_action();
    assert_eq!(action, 4);
    assert_eq!(score, Score { num: 26, den: 26 });
}

#[test]
fn equal_keys_send_the_descent_to_the_first_child() {
    let mut engine = Mcts::new(Nim { heap: 3, to_move: 0 });
    engine.search(2, &flat);
    assert_eq!(engine.root_children(), vec![1, 2]);
    engine.search(20, &flat);
    let second = engine.root_children()[1];
    assert_eq!(visits(&engine, second), 1);
    assert_eq!(visits(&engine, 1), 21);
}

#[test]
fn greatest_key_is_followed() {
    // The key is the number of visits: the child that is ahead stays ahead,
    // and the first child is ahead after the first two iterations' tie.
    let mut engine = Mcts::new(Nim { heap: 5, to_move: 0 });
    let by_visits = |_value: Score, played: u32, _parent: u32| played as u64;
    engine.search(2, &by_visits);
    assert_eq!(visits(&engine, 1), 1);
    assert_eq!(visits(&engine, 2), 1);
    engine.search(30, &by_visits);
    assert_eq!(visits(&engine, 1), 31);
    assert_eq!(visits(&engine, 2), 1);
    // With the order turned round the two children take turns.
    let mut engine = Mcts::new(Nim { heap: 5, to_move: 0 });
    let by_rarity = |_value: Score, played: u32, _parent: u32| u64::MAX - played as u64;
    engine.search(32, &by_rarity);
    assert_eq!(visits(&engine, 1), 16);
    assert_eq!(visits(&engine, 2), 16);
}

#[test]
fn scoring_is_asked_with_value_visits_and_parent_visits() {
    let seen = std::cell::RefCell::new(Vec::new());
    let record = |value: Score, played: u32, parent: u32| {
        seen.borrow_mut().push((value, played, parent));
        0
    };
    let mut engine = Mcts::new(Pick { taken: None });
    engine.search(3, &record);
    let asked = seen.borrow().clone();
    // The first two iterations expand the root; the third ranks both
    // children, each visited once under a root visited twice.
    assert_eq!(asked.len(), 2);
    for (index, (value, played, parent)) in asked.iter().enumerate() {
        let node = engine.node(engine.root_children()[index]);
        assert_eq!(*parent, 2);
        assert_eq!(*played, 1);
        assert_eq!(value.den, 2);
        let won = node.last_action() == Some(0);
        assert_eq!(value.num, if won { 2 } else { 0 });
    }
}

#[test]
fn dominant_move_is_found() {
    let mut engine = Mcts::new(Gamble { first: None, second: None });
    engine.search(2000, &uct);
    let (action, score) = engine.best_action();
    assert_eq!(action, 0);
    assert!(2 * score.num > score.den);
    assert_eq!(score.num, score.den);
    assert_eq!(visits(&engine, 0), 2000);
}

#[test]
fn best_score_is_the_greatest_child_value() {
    let mut engine = Mcts::new(Gamble { first: None, second: None });
    engine.search(300, &uct);
    let (action, score) = engine.best_action();
    let mut found = false;
    for &child in &engine.root_children() {
        let node = engine.node(child);
        let value = node.score(0, engine.node(0));
        assert!(!value.exceeds(&score));
        if node.last_action() == Some(action) {
            assert_eq!(value, score);
            found = true;
        }
    }
    assert!(found);
}

#[test]
fn first_of_equal_children_is_recommended() {
    let mut engine = Mcts::new(Over { result: MctsState::Draw });
    engine.search(1, &flat);
    assert!(engine.root_children().is_empty());
    let mut engine = Mcts::new(Walk { left: 1 });
    engine.search(4, &flat);
    assert_eq!(engine.best_action(), (1, Score { num: 8, den: 8 }));
}

#[test]
fn scoring_is_never_asked_about_an_unvisited_node() {
    let asked = std::cell::Cell::new(0u32);
    let checked = |value: Score, played: u32, parent: u32| {
        asked.set(asked.get() + 1);
        assert!(played >= 1);
        assert!(played <= parent);
        assert_eq!(value.den, 2 * played as u64);
        assert!(value.num <= value.den);
        uct(value, played, parent)
    };
    let mut engine = Mcts::new(Nim { heap: 8, to_move: 0 });
    engine.search(500, &checked);
    assert!(asked.get() > 500);
    assert_eq!(visits(&engine, 0), 500);
}

#[test]
fn advance_makes_the_move_with_play() {
    let next = Nim { heap: 5, to_move: 0 }.advance(2);
    assert_eq!(next.heap, 3);
    assert_eq!(next.to_move, 1);
    let next = Pick { taken: None }.advance(1);
    assert_eq!(next.taken, Some(1));
}

#[test]
fn child_holds_the_position_after_its_move() {
    let mut engine = Mcts::new(Nim { heap: 7, to_move: 0 });
    engine.search(60, &uct);
    for &child in &engine.root_children() {
        let node = engine.node(child);
        let action = node.last_action().unwrap();
        assert_eq!(node.game().heap, 7 - action);
        assert_eq!(node.game().to_move, 1);
    }
    assert_eq!(engine.node(0).game().heap, 7);
    assert_eq!(engine.node(0).game().to_move, 0);
}

#[test]
fn two_sides_of_every_node_add_up_to_one() {
    let mut engine = Mcts::new(Nim { heap: 6, to_move: 0 });
    engine.search(120, &uct);
    for index in 0..engine.node_count() {
        let node = engine.node(index);
        let wins = node.value_for(true);
        let losses = node.value_for(false);
        assert_eq!(wins.den, 2 * node.played() as u64);
        assert_eq!(wins.den, losses.den);
        assert_eq!(wins.num + losses.num, wins.den);
    }
    for &child in &engine.root_children() {
        let node = engine.node(child);
        let mine = node.score(0, engine.node(0));
        let theirs = node.score(1, engine.node(0));
        assert_eq!(mine, node.value_for(true));
        assert_eq!(theirs, node.value_for(false));
    }
}

#[test]
fn untried_moves_only_shrink() {
    let mut engine = Mcts::new(Gamble { first: None, second: None });
    assert_eq!(engine.node(0).actions().len(), 3);
    engine.search(1, &uct);
    assert_eq!(engine.node(0).actions().len(), 2);
    assert_eq!(engine.node_count(), 2);
    engine.search(1, &uct);
    assert_eq!(engine.node(0).actions().len(), 1);
    engine.search(1, &uct);
    assert!(engine.node(0).actions().is_empty());
    assert_eq!(engine.node_count(), 4);
    let mut moves: Vec<u8> = (1..4).map(|i| engine.node(i).last_action().unwrap()).collect();
    moves.sort();
    assert_eq!(moves, vec![0, 1, 2]);
    engine.search(50, &uct);
    assert!(engine.node(0).actions().is_empty());
    assert_eq!(engine.root_children(), vec![1, 2, 3]);
}

/// One move decides, and the turn passes with it: 1 wins for the player who
/// made it, 2 loses.
#[derive(Clone, Debug)]
struct Turn {
    s: u8,
}

impl MctsGame for Turn {
    type Action = u8;
    type Player = u8;

    fn legal_actions(&self) -> Vec<u8> {
        if self.s == 0 {
            vec![1, 2]
        } else {
            vec![]
        }
    }

    fn play(&mut self, action: u8) {
        self.s = action;
    }

    fn player(&self) -> u8 {
        if self.s == 0 {
            0
        } else {
            1
        }
    }

    fn state(&self, player: u8) -> MctsState {
        if self.s == 0 {
            MctsState::Unfinished
        } else if (self.s == 1) == (player == 0) {
            MctsState::Win
        } else {
            MctsState::Lose
        }
    }
}

/// As `Gamble`, but the second move is the other player's.
#[derive(Clone, Debug)]
struct Duel {
    first: Option<u8>,
    second: Option<u8>,
}

impl MctsGame for Duel {
    type Action = u8;
    type Player = u8;

    fn legal_actions(&self) -> Vec<u8> {
        match (self.first, self.second) {
            (None, _) => vec![0, 1, 2],
            (Some(1), None) => vec![0, 1, 2, 3],
            (Some(2), None) => vec![0, 1],
            _ => vec![],
        }
    }

    fn play(&mut self, action: u8) {
        if self.first.is_none() {
            self.first = Some(action);
        } else {
            self.second = Some(action);
        }
    }

    fn player(&self) -> u8 {
        match (self.first, self.second) {
            (None, _) => 0,
            (Some(_), None) => 1,
            _ => 0,
        }
    }

    fn state(&self, player: u8) -> MctsState {
        let first_wins = match (self.first, self.second) {
            (None, _) => return MctsState::Unfinished,
            (Some(1), None) => return MctsState::Unfinished,
            (Some(2), None) => return MctsState::Unfinished,
            (Some(0), _) => true,
            (Some(1), Some(0)) => true,
            _ => false,
        };
        if first_wins == (player == 0) {
            MctsState::Win
        } else {
            MctsState::Lose
        }
    }
}

#[test]
fn winning_move_is_recommended_when_the_turn_passes() {
    let mut engine = Mcts::new(Turn { s: 0 });
    engine.search(10, &uct);
    let (action, score) = engine.best_action();
    assert_eq!(action, 1);
    assert_eq!(score.num, score.den);
    assert!(score.den > 0);
    assert_eq!(score.num as f32 / score.den as f32, 1.0);
    for &child in &engine.root_children() {
        let node = engine.node(child);
        assert_eq!(node.game().player(), 1);
        let won = node.last_action() == Some(1);
        assert_eq!(node.won, if won { node.played() } else { 0 });
        let value = node.score(0, engine.node(0));
        assert_eq!(value.num, if won { value.den } else { 0 });
    }
}

#[test]
fn dominant_move_is_found_when_the_turn_passes() {
    let mut engine = Mcts::new(Duel { first: None, second: None });
    engine.search(2000, &uct);
    let (action, score) = engine.best_action();
    assert_eq!(action, 0);
    assert!(2 * score.num > score.den);
    assert_eq!(score.num, score.den);
}

#[test]
fn descent_serves_the_player_to_move_at_each_node() {
    // From a heap of 4, taking 1 leaves the other player a lost position.
    let mut engine = Mcts::new(Nim { heap: 4, to_move: 0 });
    engine.search(3000, &uct);
    let (action, score) = engine.best_action();
    assert_eq!(action, 1);
    assert!(2 * score.num > score.den);
    let children = engine.root_children();
    let good = children
        .iter()
        .copied()
        .find(|&c| engine.node(c).last_action() == Some(1))
        .unwrap();
    let bad = children
        .iter()
        .copied()
        .find(|&c| engine.node(c).last_action() == Some(2))
        .unwrap();
    // The searcher comes back to the good move; after the bad one the other
    // player's winning reply is what the rollouts mostly show.
    assert!(visits(&engine, good) > visits(&engine, bad));
    assert!(engine.node(bad).lost > engine.node(bad).won);
}

#[test]
fn recommended_move_is_a_legal_move_of_the_root() {
    let mut engine = Mcts::new(Nim { heap: 7, to_move: 0 });
    engine.search(50, &uct);
    let (action, _) = engine.best_action();
    assert!(engine.node(0).game().legal_actions().contains(&action));
    for index in 1..engine.node_count() {
        let action = engine.node(index).last_action().unwrap();
        assert!(action == 1 || action == 2);
    }
}

#[test]
fn expansion_changes_nothing_where_no_move_is_untried() {
    let mut engine = Mcts::new(Walk { left: 1 });
    engine.search(1, &uct);
    assert_eq!(engine.node_count(), 2);
    assert!(engine.node(1).actions().is_empty());
    engine.search(5, &uct);
    assert_eq!(engine.node_count(), 2);
    assert_eq!(visits(&engine, 1), 6);
    assert_eq!(engine.node(1).game().left, 0);
}
