//! Move origins (the twelve throw lanes) and the destination a compiled
//! move throws into.

use vstd::prelude::*;

use crate::block::{BlocksCol, BlocksRow};

verus! {

/// The lane a block is thrown from. Lanes 6 to 11 lie level with block-field
/// rows 1 to 6; lanes 0 to 5 lie above the block field, behind whatever
/// walls and pipes the puzzle places there.
#[derive(Clone, Copy, Debug, Eq, PartialEq, Structural)]
pub enum MoveSrc {
    Row0,
    Row1,
    Row2,
    Row3,
    Row4,
    Row5,
    Row6,
    Row7,
    Row8,
    Row9,
    Row10,
    Row11,
}

pub const MOVE_SRC_ROW_0: MoveSrc = MoveSrc::Row0;
pub const MOVE_SRC_ROW_1: MoveSrc = MoveSrc::Row1;
pub const MOVE_SRC_ROW_2: MoveSrc = MoveSrc::Row2;
pub const MOVE_SRC_ROW_3: MoveSrc = MoveSrc::Row3;
pub const MOVE_SRC_ROW_4: MoveSrc = MoveSrc::Row4;
pub const MOVE_SRC_ROW_5: MoveSrc = MoveSrc::Row5;
pub const MOVE_SRC_ROW_6: MoveSrc = MoveSrc::Row6;
pub const MOVE_SRC_ROW_7: MoveSrc = MoveSrc::Row7;
pub const MOVE_SRC_ROW_8: MoveSrc = MoveSrc::Row8;
pub const MOVE_SRC_ROW_9: MoveSrc = MoveSrc::Row9;
pub const MOVE_SRC_ROW_10: MoveSrc = MoveSrc::Row10;
pub const MOVE_SRC_ROW_11: MoveSrc = MoveSrc::Row11;

impl MoveSrc {
    /// The numeric identifier of this lane, in `0..=11`.
    pub open spec fn spec_inner(self) -> int {
        match self {
            MoveSrc::Row0 => 0,
            MoveSrc::Row1 => 1,
            MoveSrc::Row2 => 2,
            MoveSrc::Row3 => 3,
            MoveSrc::Row4 => 4,
            MoveSrc::Row5 => 5,
            MoveSrc::Row6 => 6,
            MoveSrc::Row7 => 7,
            MoveSrc::Row8 => 8,
            MoveSrc::Row9 => 9,
            MoveSrc::Row10 => 10,
            MoveSrc::Row11 => 11,
        }
    }

    pub fn from_inner(inner: u8) -> (r: Option<MoveSrc>)
        ensures
            r is Some <==> inner <= 11,
            r matches Some(s) ==> s.spec_inner() == inner,
    {
        match inner {
            0 => Some(MoveSrc::Row0),
            1 => Some(MoveSrc::Row1),
            2 => Some(MoveSrc::Row2),
            3 => Some(MoveSrc::Row3),
            4 => Some(MoveSrc::Row4),
            5 => Some(MoveSrc::Row5),
            6 => Some(MoveSrc::Row6),
            7 => Some(MoveSrc::Row7),
            8 => Some(MoveSrc::Row8),
            9 => Some(MoveSrc::Row9),
            10 => Some(MoveSrc::Row10),
            11 => Some(MoveSrc::Row11),
            _ => None,
        }
    }

    pub fn to_inner(self) -> (r: u8)
        ensures
            r as int == self.spec_inner(),
    {
        match self {
            MoveSrc::Row0 => 0,
            MoveSrc::Row1 => 1,
            MoveSrc::Row2 => 2,
            MoveSrc::Row3 => 3,
            MoveSrc::Row4 => 4,
            MoveSrc::Row5 => 5,
            MoveSrc::Row6 => 6,
            MoveSrc::Row7 => 7,
            MoveSrc::Row8 => 8,
            MoveSrc::Row9 => 9,
            MoveSrc::Row10 => 10,
            MoveSrc::Row11 => 11,
        }
    }

    pub fn to_index(self) -> (r: usize)
        ensures
            r as int == self.spec_inner(),
    {
        self.to_inner() as usize
    }

    pub fn is_valid(inner: u8) -> (r: bool)
        ensures
            r == (inner <= 11),
    {
        inner <= 11
    }

    pub fn all() -> (r: [MoveSrc; 12])
        ensures
            forall|i: int| 0 <= i < 12 ==> #[trigger] r@[i].spec_inner() == i,
    {
        [
            MoveSrc::Row0,
            MoveSrc::Row1,
            MoveSrc::Row2,
            MoveSrc::Row3,
            MoveSrc::Row4,
            MoveSrc::Row5,
            MoveSrc::Row6,
            MoveSrc::Row7,
            MoveSrc::Row8,
            MoveSrc::Row9,
            MoveSrc::Row10,
            MoveSrc::Row11,
        ]
    }

    /// The block-field row this lane lies level with, if any: lanes 6 to 11
    /// map to rows 1 to 6, the lanes above the field to none.
    pub fn to_blocks_row(self) -> (r: Option<BlocksRow>)
        ensures
            r is Some <==> self.spec_inner() >= 6,
            r matches Some(row) ==> row.spec_inner() == self.spec_inner() - 5,
    {
        match self {
            MoveSrc::Row6 => Some(BlocksRow::Row1),
            MoveSrc::Row7 => Some(BlocksRow::Row2),
            MoveSrc::Row8 => Some(BlocksRow::Row3),
            MoveSrc::Row9 => Some(BlocksRow::Row4),
            MoveSrc::Row10 => Some(BlocksRow::Row5),
            MoveSrc::Row11 => Some(BlocksRow::Row6),
            _ => None,
        }
    }
}

/// Where a thrown block enters the field: horizontally into a row, or
/// vertically down a column.
#[derive(Clone, Copy, Debug, Eq, PartialEq, Structural)]
pub enum MoveDst {
    Horizontal(BlocksRow),
    Vertical(BlocksCol),
}

/// A legal move of the puzzle: the lane it is released from and the row or
/// column it enters the block field through.
#[derive(Clone, Copy, Debug, Eq, PartialEq, Structural)]
pub struct Move {
    pub src: MoveSrc,
    pub dst: MoveDst,
}

impl Move {
    /// The shape every compiled move has: a horizontal throw is released
    /// from the lane level with its row, and a vertical throw either drops
    /// down column `A` or is released from one of the lanes above the
    /// block field.
    pub open spec fn spec_shape_ok(self) -> bool {
        match self.dst {
            MoveDst::Horizontal(row) => self.src.spec_inner() == row.spec_inner() + 5,
            MoveDst::Vertical(col) => col == BlocksCol::ColA || self.src.spec_inner() <= 5,
        }
    }

    pub fn new(src: MoveSrc, dst: MoveDst) -> (r: Move)
        ensures
            r.src == src,
            r.dst == dst,
    {
        Move { src, dst }
    }

    pub fn src(self) -> (r: MoveSrc)
        ensures
            r == self.src,
    {
        self.src
    }

    pub fn dst(self) -> (r: MoveDst)
        ensures
            r == self.dst,
    {
        self.dst
    }
}

} // verus!
