//! Monte Carlo tree search over any game that implements `MctsGame`.
//!
//! An engine is made from a position with `Mcts::new`, grown with
//! `Mcts::search` and asked for a move with `Mcts::best_action`.
//!
//! - `game`: the game as the engine sees it, and the predicates in which
//!   the contracts speak of it;
//! - `node`: one node of the tree, its counters and its value;
//! - `links`: the tree's shape, kept by `ego_tree`;
//! - `paths`: the ways from a node up to the root;
//! - `chance`: the draw of a move;
//! - `mcts`: the engine;
//! - `laws`: what an iteration keeps true.
pub mod chance;
pub mod game;
pub mod laws;
pub mod links;
pub mod mcts;
pub mod node;
pub mod paths;

pub use crate::game::{MctsGame, MctsState};
pub use crate::mcts::Mcts;
pub use crate::node::{MctsNode, Score};
