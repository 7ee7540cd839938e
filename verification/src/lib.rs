//! Move-selection engine for an N-in-a-row connection game on a
//! configurable grid: board reconstruction from a move history, win
//! detection over four line orientations, legal-move generation, and
//! three difficulty strategies (random with a center preference,
//! fixed-depth minimax, and alpha-beta search with a static evaluator).

pub mod board;
pub mod engine;
pub mod eval;
pub mod history;
pub mod rng;
pub mod search;
pub mod strategy;
pub mod winner;

pub use board::drop_piece;
pub use board::get_valid_moves;
pub use board::BOT;
pub use board::EMPTY;
pub use board::PLAYER;
pub use engine::compute_move;
pub use engine::compute_move_checked;
pub use engine::MoveError;
pub use eval::evaluate_board;
pub use search::alphabeta;
pub use search::minimax;
pub use strategy::easy_bot;
pub use strategy::insane_bot;
pub use strategy::medium_bot;
pub use winner::check_winner;
