//! Optimal-route solver for single boards of the Flipull ADVANCE puzzle mode.
//!
//! The crate models the 6x6 block field and its throw physics, compiles a
//! static puzzle layout into an initial game state plus the fixed set of
//! legal move origins, prices every move with an integer real-time cost
//! model, and searches move orderings for the cheapest solving sequence.
#![verifier::loop_isolation(false)]

mod block;
mod cost;
mod error;
mod move_;
mod position;
mod problem;
mod solver;
mod text;

pub use block::{
    Block, Blocks, BlocksCol, BlocksRow, BlocksSquare, BLOCKS_COL_A, BLOCKS_COL_B, BLOCKS_COL_C,
    BLOCKS_COL_D, BLOCKS_COL_E, BLOCKS_COL_F, BLOCKS_ROW_1, BLOCKS_ROW_2, BLOCKS_ROW_3,
    BLOCKS_ROW_4, BLOCKS_ROW_5, BLOCKS_ROW_6,
};
pub use cost::{
    calc_hero_move_cost, calc_move_cost, Cost, COST_CLEAR_ERASE_BLOCK, COST_HERO_MOVE_PER_ROW,
    COST_THROW_LAST_STAGE, COST_THROW_MIN, COST_THROW_PER_SQUARE,
};
pub use move_::{
    Move, MoveDst, MoveSrc, MOVE_SRC_ROW_0, MOVE_SRC_ROW_1, MOVE_SRC_ROW_10, MOVE_SRC_ROW_11,
    MOVE_SRC_ROW_2, MOVE_SRC_ROW_3, MOVE_SRC_ROW_4, MOVE_SRC_ROW_5, MOVE_SRC_ROW_6,
    MOVE_SRC_ROW_7, MOVE_SRC_ROW_8, MOVE_SRC_ROW_9,
};
pub use error::{ParseError, ProblemError, VerifyError};
pub use position::Position;
pub use problem::{Problem, ProblemBoard, ProblemTile};
pub use solver::{solve_problem, Solution};
