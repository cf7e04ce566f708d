//! The integer real-time cost model: relocating the thrower between lanes,
//! the travel time of one throw, and the automatic end-of-stage clear.
//!
//! The exact magnitudes are calibration constants; the structure — a
//! per-lane relocation cost, a per-square travel cost above a fixed minimum,
//! and a per-block auto-clear charge — is fixed.

use vstd::prelude::*;

use crate::move_::MoveSrc;
use crate::block::BlocksSquare;

verus! {

/// A real-time cost, measured in abstract time units.
pub type Cost = u64;

/// Cost of moving the thrower by one lane.
pub const COST_HERO_MOVE_PER_ROW: Cost = 2;

/// Fixed minimum cost of any throw.
pub const COST_THROW_MIN: Cost = 1;

/// Cost per square travelled by a thrown block.
pub const COST_THROW_PER_SQUARE: Cost = 1;

/// Cost charged per block left on the board when a solved stage
/// auto-clears. It never exceeds what a throw pays per block it erases, so
/// the solver's pruning bound stays admissible.
pub const COST_CLEAR_ERASE_BLOCK: Cost = 1;

/// Cost charged for the very last throw on the last stage, where the player
/// need not wait for the block to finish travelling.
pub const COST_THROW_LAST_STAGE: Cost = 1;

/// Cost of relocating the thrower from lane `from` to lane `to`: one unit of
/// `COST_HERO_MOVE_PER_ROW` per lane traversed, zero when unchanged.
pub open spec fn spec_hero_move_cost(from: int, to: int) -> int {
    if from <= to {
        (to - from) * (COST_HERO_MOVE_PER_ROW as int)
    } else {
        (from - to) * (COST_HERO_MOVE_PER_ROW as int)
    }
}

/// Number of squares a block thrown from lane `src` travelled when the scan
/// last passed through the square at 0-based column `c` and row `k`: the
/// horizontal offset from the field's right edge plus the downward offset
/// from the throw lane's own row.
pub open spec fn spec_throw_distance(src: int, c: int, k: int) -> int {
    (5 - c) + if k + 6 >= src {
        k + 6 - src
    } else {
        0
    }
}

/// Cost of one throw from lane `src` whose scan last passed through the
/// square at 0-based column `c` and row `k`.
pub open spec fn spec_move_cost(src: int, c: int, k: int) -> int {
    (COST_THROW_MIN as int) + (COST_THROW_PER_SQUARE as int) * spec_throw_distance(src, c, k)
}

/// Thrower relocation cost between two lanes.
pub fn calc_hero_move_cost(from: MoveSrc, to: MoveSrc) -> (r: Cost)
    ensures
        r as int == spec_hero_move_cost(from.spec_inner(), to.spec_inner()),
        r <= 22,
{
    let a = from.to_inner();
    let b = to.to_inner();
    let d = if a <= b {
        b - a
    } else {
        a - b
    };
    (d as u64) * COST_HERO_MOVE_PER_ROW
}

/// Travel cost of one throw, from its lane and the last square the scan
/// passed through.
pub fn calc_move_cost(src: MoveSrc, sq_last: BlocksSquare) -> (r: Cost)
    ensures
        r as int == spec_move_cost(
            src.spec_inner(),
            (sq_last.spec_inner() - 1) % 6,
            (sq_last.spec_inner() - 1) / 6,
        ),
        1 <= r <= 17,
{
    let c = sq_last.col().to_index() as u64;
    let k = sq_last.row().to_index() as u64;
    let s = src.to_inner() as u64;
    let down = if k + 6 >= s {
        k + 6 - s
    } else {
        0
    };
    COST_THROW_MIN + COST_THROW_PER_SQUARE * ((5 - c) + down)
}

} // verus!
