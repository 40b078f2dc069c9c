//! Decision engine for a two-side, HP-based card-shedding game.
//!
//! Given a hand, an opponent's hand, lives remaining and an optional combo to
//! beat, the engine enumerates every legal reply, scores hands and moves with
//! deterministic integer heuristics, searches the game tree with alpha-beta
//! pruning, and estimates win probability with reproducible seeded playouts.

pub mod cards;
pub mod combo;
pub mod eval;
pub mod plays;
pub mod estimate;
pub mod search;
pub mod minimax;
pub mod playout;
