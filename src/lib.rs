//! Ultimate tic-tac-toe: the board model, exact leaf-evaluation tables and a
//! depth-limited alpha-beta search, with their contracts proved by Verus.
pub mod board;
pub mod cache;
pub mod codec;
pub mod cursor;
pub mod eval;
pub mod packed;
pub mod search;

pub use board::{Board, BoardStatus, IndividualBoard, LocalBoardState, Player};
pub use cache::SearchCache;
pub use codec::BoardKey;
pub use packed::PackedBoard;
pub use eval::{evaluate, evaluate_whole, evalute, EvalTables};
pub use search::{best_move, minimax, minimax_single, SearchResult, EVAL_UNIT, WIN_SCORE};
