//! Grid primitives: block colors, columns, rows, squares, and the 6x6 block
//! field with its throw-resolution physics.

use vstd::prelude::*;

use crate::error::ParseError;
use crate::text::{
    append_char, chars_of, lemma_split_nl_concat, spec_emit_char, split_lines_at, split_nl,
    views_of,
};

verus! {

/// A block color. Four normal colors plus the wild color, which matches any
/// normal color. In ADVANCE mode a wild block never appears on the board; it
/// can only be held by the thrower.
#[derive(Clone, Copy, Debug, Eq, PartialEq, Structural)]
pub enum Block {
    Normal1,
    Normal2,
    Normal3,
    Normal4,
    Wild,
}

impl Block {
    /// The numeric identifier of this color, in `1..=5`.
    pub open spec fn spec_inner(self) -> int {
        match self {
            Block::Normal1 => 1,
            Block::Normal2 => 2,
            Block::Normal3 => 3,
            Block::Normal4 => 4,
            Block::Wild => 5,
        }
    }

    pub open spec fn spec_is_wild(self) -> bool {
        self is Wild
    }

    /// Whether a thrown block of color `self` erases a struck block of color
    /// `other`: wild erases everything, a normal color only its own kind.
    pub open spec fn spec_can_erase(self, other: Block) -> bool {
        self is Wild || self == other
    }

    pub fn from_inner(inner: u8) -> (r: Option<Block>)
        ensures
            r is Some <==> 1 <= inner <= 5,
            r matches Some(b) ==> b.spec_inner() == inner,
    {
        match inner {
            1 => Some(Block::Normal1),
            2 => Some(Block::Normal2),
            3 => Some(Block::Normal3),
            4 => Some(Block::Normal4),
            5 => Some(Block::Wild),
            _ => None,
        }
    }

    pub fn to_inner(self) -> (r: u8)
        ensures
            r as int == self.spec_inner(),
    {
        match self {
            Block::Normal1 => 1,
            Block::Normal2 => 2,
            Block::Normal3 => 3,
            Block::Normal4 => 4,
            Block::Wild => 5,
        }
    }

    pub fn is_normal(self) -> (r: bool)
        ensures
            r == !self.spec_is_wild(),
    {
        !self.is_wild()
    }

    pub fn is_wild(self) -> (r: bool)
        ensures
            r == self.spec_is_wild(),
    {
        self == Block::Wild
    }

    pub fn can_erase(self, other: Block) -> (r: bool)
        ensures
            r == self.spec_can_erase(other),
    {
        match self {
            Block::Wild => true,
            _ => self == other,
        }
    }

    pub fn is_valid(inner: u8) -> (r: bool)
        ensures
            r == (1 <= inner <= 5),
    {
        1 <= inner && inner <= 5
    }
}

/// A column of the 6x6 block field, `A` (nearest the left wall) to `F`.
#[derive(Clone, Copy, Debug, Eq, PartialEq, Structural)]
pub enum BlocksCol {
    ColA,
    ColB,
    ColC,
    ColD,
    ColE,
    ColF,
}

pub const BLOCKS_COL_A: BlocksCol = BlocksCol::ColA;
pub const BLOCKS_COL_B: BlocksCol = BlocksCol::ColB;
pub const BLOCKS_COL_C: BlocksCol = BlocksCol::ColC;
pub const BLOCKS_COL_D: BlocksCol = BlocksCol::ColD;
pub const BLOCKS_COL_E: BlocksCol = BlocksCol::ColE;
pub const BLOCKS_COL_F: BlocksCol = BlocksCol::ColF;

impl BlocksCol {
    /// The numeric identifier of this column, in `1..=6`.
    pub open spec fn spec_inner(self) -> int {
        match self {
            BlocksCol::ColA => 1,
            BlocksCol::ColB => 2,
            BlocksCol::ColC => 3,
            BlocksCol::ColD => 4,
            BlocksCol::ColE => 5,
            BlocksCol::ColF => 6,
        }
    }

    pub fn from_inner(inner: u8) -> (r: Option<BlocksCol>)
        ensures
            r is Some <==> 1 <= inner <= 6,
            r matches Some(c) ==> c.spec_inner() == inner,
    {
        match inner {
            1 => Some(BlocksCol::ColA),
            2 => Some(BlocksCol::ColB),
            3 => Some(BlocksCol::ColC),
            4 => Some(BlocksCol::ColD),
            5 => Some(BlocksCol::ColE),
            6 => Some(BlocksCol::ColF),
            _ => None,
        }
    }

    pub fn to_inner(self) -> (r: u8)
        ensures
            r as int == self.spec_inner(),
    {
        match self {
            BlocksCol::ColA => 1,
            BlocksCol::ColB => 2,
            BlocksCol::ColC => 3,
            BlocksCol::ColD => 4,
            BlocksCol::ColE => 5,
            BlocksCol::ColF => 6,
        }
    }

    pub fn to_index(self) -> (r: usize)
        ensures
            r as int == self.spec_inner() - 1,
    {
        (self.to_inner() - 1) as usize
    }

    pub fn is_valid(inner: u8) -> (r: bool)
        ensures
            r == (1 <= inner <= 6),
    {
        1 <= inner && inner <= 6
    }

    pub fn all() -> (r: [BlocksCol; 6])
        ensures
            forall|i: int| 0 <= i < 6 ==> #[trigger] r@[i].spec_inner() == i + 1,
    {
        [
            BLOCKS_COL_A,
            BLOCKS_COL_B,
            BLOCKS_COL_C,
            BLOCKS_COL_D,
            BLOCKS_COL_E,
            BLOCKS_COL_F,
        ]
    }
}

/// A row of the 6x6 block field, `1` to `6` in the order the text encoding
/// lists them.
#[derive(Clone, Copy, Debug, Eq, PartialEq, Structural)]
pub enum BlocksRow {
    Row1,
    Row2,
    Row3,
    Row4,
    Row5,
    Row6,
}

pub const BLOCKS_ROW_1: BlocksRow = BlocksRow::Row1;
pub const BLOCKS_ROW_2: BlocksRow = BlocksRow::Row2;
pub const BLOCKS_ROW_3: BlocksRow = BlocksRow::Row3;
pub const BLOCKS_ROW_4: BlocksRow = BlocksRow::Row4;
pub const BLOCKS_ROW_5: BlocksRow = BlocksRow::Row5;
pub const BLOCKS_ROW_6: BlocksRow = BlocksRow::Row6;

impl BlocksRow {
    /// The numeric identifier of this row, in `1..=6`.
    pub open spec fn spec_inner(self) -> int {
        match self {
            BlocksRow::Row1 => 1,
            BlocksRow::Row2 => 2,
            BlocksRow::Row3 => 3,
            BlocksRow::Row4 => 4,
            BlocksRow::Row5 => 5,
            BlocksRow::Row6 => 6,
        }
    }

    pub fn from_inner(inner: u8) -> (r: Option<BlocksRow>)
        ensures
            r is Some <==> 1 <= inner <= 6,
            r matches Some(c) ==> c.spec_inner() == inner,
    {
        match inner {
            1 => Some(BlocksRow::Row1),
            2 => Some(BlocksRow::Row2),
            3 => Some(BlocksRow::Row3),
            4 => Some(BlocksRow::Row4),
            5 => Some(BlocksRow::Row5),
            6 => Some(BlocksRow::Row6),
            _ => None,
        }
    }

    pub fn to_inner(self) -> (r: u8)
        ensures
            r as int == self.spec_inner(),
    {
        match self {
            BlocksRow::Row1 => 1,
            BlocksRow::Row2 => 2,
            BlocksRow::Row3 => 3,
            BlocksRow::Row4 => 4,
            BlocksRow::Row5 => 5,
            BlocksRow::Row6 => 6,
        }
    }

    pub fn to_index(self) -> (r: usize)
        ensures
            r as int == self.spec_inner() - 1,
    {
        (self.to_inner() - 1) as usize
    }

    pub fn is_valid(inner: u8) -> (r: bool)
        ensures
            r == (1 <= inner <= 6),
    {
        1 <= inner && inner <= 6
    }

    pub fn all() -> (r: [BlocksRow; 6])
        ensures
            forall|i: int| 0 <= i < 6 ==> #[trigger] r@[i].spec_inner() == i + 1,
    {
        [
            BLOCKS_ROW_1,
            BLOCKS_ROW_2,
            BLOCKS_ROW_3,
            BLOCKS_ROW_4,
            BLOCKS_ROW_5,
            BLOCKS_ROW_6,
        ]
    }
}

/// A square of the 6x6 block field, identified by column letter and row
/// number; the linear identifier runs row-major with the column varying
/// fastest.
#[derive(Clone, Copy, Debug, Eq, PartialEq, Structural)]
pub enum BlocksSquare {
    SqA1,
    SqB1,
    SqC1,
    SqD1,
    SqE1,
    SqF1,
    SqA2,
    SqB2,
    SqC2,
    SqD2,
    SqE2,
    SqF2,
    SqA3,
    SqB3,
    SqC3,
    SqD3,
    SqE3,
    SqF3,
    SqA4,
    SqB4,
    SqC4,
    SqD4,
    SqE4,
    SqF4,
    SqA5,
    SqB5,
    SqC5,
    SqD5,
    SqE5,
    SqF5,
    SqA6,
    SqB6,
    SqC6,
    SqD6,
    SqE6,
    SqF6,
}

impl BlocksSquare {
    /// The numeric identifier of this square, in `1..=36`.
    pub open spec fn spec_inner(self) -> int {
        match self {
            BlocksSquare::SqA1 => 1,
            BlocksSquare::SqB1 => 2,
            BlocksSquare::SqC1 => 3,
            BlocksSquare::SqD1 => 4,
            BlocksSquare::SqE1 => 5,
            BlocksSquare::SqF1 => 6,
            BlocksSquare::SqA2 => 7,
            BlocksSquare::SqB2 => 8,
            BlocksSquare::SqC2 => 9,
            BlocksSquare::SqD2 => 10,
            BlocksSquare::SqE2 => 11,
            BlocksSquare::SqF2 => 12,
            BlocksSquare::SqA3 => 13,
            BlocksSquare::SqB3 => 14,
            BlocksSquare::SqC3 => 15,
            BlocksSquare::SqD3 => 16,
            BlocksSquare::SqE3 => 17,
            BlocksSquare::SqF3 => 18,
            BlocksSquare::SqA4 => 19,
            BlocksSquare::SqB4 => 20,
            BlocksSquare::SqC4 => 21,
            BlocksSquare::SqD4 => 22,
            BlocksSquare::SqE4 => 23,
            BlocksSquare::SqF4 => 24,
            BlocksSquare::SqA5 => 25,
            BlocksSquare::SqB5 => 26,
            BlocksSquare::SqC5 => 27,
            BlocksSquare::SqD5 => 28,
            BlocksSquare::SqE5 => 29,
            BlocksSquare::SqF5 => 30,
            BlocksSquare::SqA6 => 31,
            BlocksSquare::SqB6 => 32,
            BlocksSquare::SqC6 => 33,
            BlocksSquare::SqD6 => 34,
            BlocksSquare::SqE6 => 35,
            BlocksSquare::SqF6 => 36,
        }
    }

    pub fn from_inner(inner: u8) -> (r: Option<BlocksSquare>)
        ensures
            r is Some <==> 1 <= inner <= 36,
            r matches Some(sq) ==> sq.spec_inner() == inner,
    {
        match inner {
            1 => Some(BlocksSquare::SqA1),
            2 => Some(BlocksSquare::SqB1),
            3 => Some(BlocksSquare::SqC1),
            4 => Some(BlocksSquare::SqD1),
            5 => Some(BlocksSquare::SqE1),
            6 => Some(BlocksSquare::SqF1),
            7 => Some(BlocksSquare::SqA2),
            8 => Some(BlocksSquare::SqB2),
            9 => Some(BlocksSquare::SqC2),
            10 => Some(BlocksSquare::SqD2),
            11 => Some(BlocksSquare::SqE2),
            12 => Some(BlocksSquare::SqF2),
            13 => Some(BlocksSquare::SqA3),
            14 => Some(BlocksSquare::SqB3),
            15 => Some(BlocksSquare::SqC3),
            16 => Some(BlocksSquare::SqD3),
            17 => Some(BlocksSquare::SqE3),
            18 => Some(BlocksSquare::SqF3),
            19 => Some(BlocksSquare::SqA4),
            20 => Some(BlocksSquare::SqB4),
            21 => Some(BlocksSquare::SqC4),
            22 => Some(BlocksSquare::SqD4),
            23 => Some(BlocksSquare::SqE4),
            24 => Some(BlocksSquare::SqF4),
            25 => Some(BlocksSquare::SqA5),
            26 => Some(BlocksSquare::SqB5),
            27 => Some(BlocksSquare::SqC5),
            28 => Some(BlocksSquare::SqD5),
            29 => Some(BlocksSquare::SqE5),
            30 => Some(BlocksSquare::SqF5),
            31 => Some(BlocksSquare::SqA6),
            32 => Some(BlocksSquare::SqB6),
            33 => Some(BlocksSquare::SqC6),
            34 => Some(BlocksSquare::SqD6),
            35 => Some(BlocksSquare::SqE6),
            36 => Some(BlocksSquare::SqF6),
            _ => None,
        }
    }

    pub fn to_inner(self) -> (r: u8)
        ensures
            r as int == self.spec_inner(),
    {
        match self {
            BlocksSquare::SqA1 => 1,
            BlocksSquare::SqB1 => 2,
            BlocksSquare::SqC1 => 3,
            BlocksSquare::SqD1 => 4,
            BlocksSquare::SqE1 => 5,
            BlocksSquare::SqF1 => 6,
            BlocksSquare::SqA2 => 7,
            BlocksSquare::SqB2 => 8,
            BlocksSquare::SqC2 => 9,
            BlocksSquare::SqD2 => 10,
            BlocksSquare::SqE2 => 11,
            BlocksSquare::SqF2 => 12,
            BlocksSquare::SqA3 => 13,
            BlocksSquare::SqB3 => 14,
            BlocksSquare::SqC3 => 15,
            BlocksSquare::SqD3 => 16,
            BlocksSquare::SqE3 => 17,
            BlocksSquare::SqF3 => 18,
            BlocksSquare::SqA4 => 19,
            BlocksSquare::SqB4 => 20,
            BlocksSquare::SqC4 => 21,
            BlocksSquare::SqD4 => 22,
            BlocksSquare::SqE4 => 23,
            BlocksSquare::SqF4 => 24,
            BlocksSquare::SqA5 => 25,
            BlocksSquare::SqB5 => 26,
            BlocksSquare::SqC5 => 27,
            BlocksSquare::SqD5 => 28,
            BlocksSquare::SqE5 => 29,
            BlocksSquare::SqF5 => 30,
            BlocksSquare::SqA6 => 31,
            BlocksSquare::SqB6 => 32,
            BlocksSquare::SqC6 => 33,
            BlocksSquare::SqD6 => 34,
            BlocksSquare::SqE6 => 35,
            BlocksSquare::SqF6 => 36,
        }
    }

    /// The square at the crossing of `col` and `row`.
    pub fn new(col: BlocksCol, row: BlocksRow) -> (r: BlocksSquare)
        ensures
            r.spec_inner() == 6 * (row.spec_inner() - 1) + col.spec_inner(),
    {
        let inner = 6 * (row.to_inner() - 1) + col.to_inner();
        BlocksSquare::from_inner(inner).unwrap()
    }

    pub fn to_index(self) -> (r: usize)
        ensures
            r as int == self.spec_inner() - 1,
    {
        (self.to_inner() - 1) as usize
    }

    pub fn col(self) -> (r: BlocksCol)
        ensures
            r.spec_inner() == (self.spec_inner() - 1) % 6 + 1,
    {
        let col = (self.to_inner() - 1) % 6 + 1;
        BlocksCol::from_inner(col).unwrap()
    }

    pub fn row(self) -> (r: BlocksRow)
        ensures
            r.spec_inner() == (self.spec_inner() - 1) / 6 + 1,
    {
        let row = (self.to_inner() - 1) / 6 + 1;
        BlocksRow::from_inner(row).unwrap()
    }

    pub fn is_valid(inner: u8) -> (r: bool)
        ensures
            r == (1 <= inner <= 36),
    {
        1 <= inner && inner <= 36
    }
}


/// Linear cell index of 0-based column `c` and 0-based row `k` in the 6x6
/// grid sequence (row-major, column fastest).
pub open spec fn grid_idx(c: int, k: int) -> int {
    6 * k + c
}

pub open spec fn valid_coord(c: int, k: int) -> bool {
    0 <= c < 6 && 0 <= k < 6
}

/// 1 if the cell holds a block, 0 if it is empty.
pub open spec fn occ(o: Option<Block>) -> int {
    if o is Some {
        1
    } else {
        0
    }
}

/// Number of occupied cells among the first `n` cells of `s`.
pub open spec fn cnt_prefix(s: Seq<Option<Block>>, n: int) -> int
    decreases n,
{
    if n <= 0 {
        0
    } else {
        cnt_prefix(s, n - 1) + occ(s[n - 1])
    }
}

/// Number of occupied cells of the whole grid.
pub open spec fn count_occ(s: Seq<Option<Block>>) -> int {
    cnt_prefix(s, s.len() as int)
}

/// No wild block is stored in the grid; in ADVANCE mode the board only ever
/// holds normal colors.
pub open spec fn no_wild(s: Seq<Option<Block>>) -> bool {
    forall|i: int| 0 <= i < s.len() ==> s[i] != Some(Block::Wild)
}

/// The cells visited by a horizontal throw into 0-based row `r0`: columns
/// `F` down to `A` of that row, then, past the left wall, down column `A`
/// through the rows below. The leftward-then-downward turn models the thrown
/// block hitting the wall and falling.
pub open spec fn path_hori(r0: int) -> Seq<(int, int)> {
    Seq::new(6, |i: int| (5 - i, r0)) + Seq::new((5 - r0) as nat, |i: int| (0, r0 + 1 + i))
}

/// The cells visited by a vertical throw into 0-based column `c0`: the six
/// rows of that column from the top of the text encoding downward.
pub open spec fn path_vert(c0: int) -> Seq<(int, int)> {
    Seq::new(6, |i: int| (c0, i))
}

/// All path cells are in range.
pub open spec fn path_wf(path: Seq<(int, int)>) -> bool {
    forall|i: int| 0 <= i < path.len() ==> valid_coord(#[trigger] path[i].0, path[i].1)
}

/// A later path cell is never disturbed by erasing an earlier one: it lies
/// in another column, or strictly lower in the same column than anything a
/// gravity shift moves.
pub open spec fn path_ok(path: Seq<(int, int)>) -> bool {
    forall|a: int, b: int|
        0 <= a < b < path.len() ==> (#[trigger] path[b]).0 != (#[trigger] path[a]).0
            || path[b].1 > path[a].1
}

/// Erase the cell at `(c, k)` without disturbing its column: the policy of a
/// vertical throw.
pub open spec fn erase_plain(s: Seq<Option<Block>>, c: int, k: int) -> Seq<Option<Block>> {
    s.update(grid_idx(c, k), None)
}

/// Erase the cell at `(c, k)` and let the part of its column above it in the
/// text encoding settle one step down, leaving the top cell empty: the
/// gravity policy of a horizontal throw.
pub open spec fn erase_shift(s: Seq<Option<Block>>, c: int, k: int) -> Seq<Option<Block>>
    decreases k,
{
    if k <= 0 {
        s.update(grid_idx(c, 0), None)
    } else {
        erase_shift(s.update(grid_idx(c, k), s[grid_idx(c, k - 1)]), c, k - 1)
    }
}

/// Erase under the policy selected by the throw orientation.
pub open spec fn erase_cell(s: Seq<Option<Block>>, c: int, k: int, hori: bool) -> Seq<
    Option<Block>,
> {
    if hori {
        erase_shift(s, c, k)
    } else {
        erase_plain(s, c, k)
    }
}

/// Position of the first occupied cell of `orig` along `path`, at or after
/// path position `k`.
pub open spec fn first_hit_from(orig: Seq<Option<Block>>, path: Seq<(int, int)>, k: int) -> Option<
    int,
>
    decreases path.len() - k,
{
    if k < 0 || k >= path.len() {
        None
    } else if orig[grid_idx(path[k].0, path[k].1)] is Some {
        Some(k)
    } else {
        first_hit_from(orig, path, k + 1)
    }
}

/// State of the scan after the first struck cell was erased: starting from
/// path position `k`, empty cells are passed over, cells of the chain color
/// `first` are erased, and the first cell of another color is overwritten
/// with the chain color, which stops the scan and puts that cell's color in
/// the thrower's hand. `last` is the most recent cell the scan passed
/// through; it is where the scan's result square comes from.
pub open spec fn chain_scan(
    orig: Seq<Option<Block>>,
    cur: Seq<Option<Block>>,
    path: Seq<(int, int)>,
    k: int,
    first: Block,
    last: (int, int),
    hori: bool,
) -> (Seq<Option<Block>>, Block, (int, int))
    decreases path.len() - k,
{
    if k < 0 || k >= path.len() {
        (cur, first, last)
    } else {
        let (c, kk) = path[k];
        match orig[grid_idx(c, kk)] {
            None => chain_scan(orig, cur, path, k + 1, first, (c, kk), hori),
            Some(b) => if b == first {
                chain_scan(orig, erase_cell(cur, c, kk, hori), path, k + 1, first, (c, kk), hori)
            } else {
                (cur.update(grid_idx(c, kk), Some(first)), b, last)
            },
        }
    }
}

/// Full resolution of one throw along `path`: find the first struck cell; if
/// there is none, or the thrown block cannot erase it, the move has no
/// effect; otherwise erase it and continue with the chain scan.
pub open spec fn grid_move(
    orig: Seq<Option<Block>>,
    path: Seq<(int, int)>,
    thrown: Block,
    hori: bool,
) -> Option<(Seq<Option<Block>>, Block, (int, int))> {
    match first_hit_from(orig, path, 0) {
        None => None,
        Some(p) => {
            let (c, k) = path[p];
            let first = orig[grid_idx(c, k)]->0;
            if !thrown.spec_can_erase(first) {
                None
            } else {
                Some(chain_scan(orig, erase_cell(orig, c, k, hori), path, p + 1, first, (c, k), hori))
            }
        },
    }
}


/// The 6x6 block field. Cell `(col, row)` is stored at linear index
/// `grid_idx(col - 1, row - 1)` of `cells`; the text encoding lists row 1
/// first.
#[derive(Clone, Debug)]
pub struct Blocks {
    pub cells: Vec<Option<Block>>,
}

impl View for Blocks {
    type V = Seq<Option<Block>>;

    open spec fn view(&self) -> Seq<Option<Block>> {
        self.cells@
    }
}

impl PartialEq for Blocks {
    fn eq(&self, other: &Blocks) -> (r: bool) {
        if self.cells.len() != other.cells.len() {
            return false;
        }
        let n = self.cells.len();
        let mut i: usize = 0;
        while i < n
            invariant
                0 <= i <= n,
                n == self@.len(),
                n == other@.len(),
                forall|j: int| 0 <= j < i ==> self@[j] == other@[j],
            decreases n - i,
        {
            let same = match (self.cells[i], other.cells[i]) {
                (None, None) => true,
                (Some(a), Some(b)) => a == b,
                _ => false,
            };
            if !same {
                return false;
            }
            i += 1;
        }
        proof {
            assert(self@ =~= other@);
        }
        true
    }
}

impl vstd::std_specs::cmp::PartialEqSpecImpl for Blocks {
    open spec fn obeys_eq_spec() -> bool {
        true
    }

    open spec fn eq_spec(&self, other: &Blocks) -> bool {
        self@ == other@
    }
}

impl Default for Blocks {
    /// An empty field.
    fn default() -> (r: Blocks)
        ensures
            r.wf(),
            forall|i: int| 0 <= i < 36 ==> r@[i] is None,
    {
        Blocks::new()
    }
}

impl Blocks {
    /// A well-formed field: exactly 36 cells and no wild block stored.
    pub open spec fn wf(&self) -> bool {
        self@.len() == 36 && no_wild(self@)
    }

    /// An empty field.
    pub fn new() -> (r: Blocks)
        ensures
            r.wf(),
            r@.len() == 36,
            forall|i: int| 0 <= i < 36 ==> r@[i] is None,
            count_occ(r@) == 0,
    {
        let cells: Vec<Option<Block>> = vec![None; 36];
        let r = Blocks { cells };
        proof {
            lemma_cnt_all_none(r@, 36);
        }
        r
    }

    /// An exact copy of the field.
    pub fn duplicate(&self) -> (r: Blocks)
        ensures
            r@ == self@,
    {
        let n = self.cells.len();
        let mut cells: Vec<Option<Block>> = Vec::new();
        let mut i: usize = 0;
        while i < n
            invariant
                0 <= i <= n,
                n == self@.len(),
                cells@.len() == i,
                forall|j: int| 0 <= j < i ==> cells@[j] == self@[j],
            decreases n - i,
        {
            cells.push(self.cells[i]);
            i += 1;
        }
        proof {
            assert(cells@ =~= self@);
        }
        Blocks { cells }
    }

    /// The number of blocks on the field.
    pub fn block_count(&self) -> (r: usize)
        ensures
            r as int == count_occ(self@),
    {
        let n = self.cells.len();
        let mut i: usize = 0;
        let mut acc: usize = 0;
        while i < n
            invariant
                0 <= i <= n,
                n == self@.len(),
                acc as int == cnt_prefix(self@, i as int),
                acc <= i,
            decreases n - i,
        {
            if self.cells[i].is_some() {
                acc += 1;
            }
            i += 1;
        }
        acc
    }

    /// The content of one cell.
    pub fn get(&self, col: BlocksCol, row: BlocksRow) -> (r: Option<Block>)
        requires
            self@.len() == 36,
        ensures
            r == self@[grid_idx(col.spec_inner() - 1, row.spec_inner() - 1)],
    {
        let idx = 6 * row.to_index() + col.to_index();
        self.cells[idx]
    }

    /// Write one cell. A wild block is never placed on the board in ADVANCE
    /// mode, so this keeps the field well formed.
    pub fn set(&mut self, col: BlocksCol, row: BlocksRow, b: Option<Block>)
        requires
            old(self).wf(),
            b != Some(Block::Wild),
        ensures
            final(self)@ == old(self)@.update(
                grid_idx(col.spec_inner() - 1, row.spec_inner() - 1),
                b,
            ),
            final(self).wf(),
    {
        let idx = 6 * row.to_index() + col.to_index();
        self.cells[idx] = b;
    }
}

/// An all-empty prefix holds no blocks.
proof fn lemma_cnt_all_none(s: Seq<Option<Block>>, n: int)
    requires
        n <= s.len(),
        forall|i: int| 0 <= i < s.len() ==> s[i] is None,
    ensures
        cnt_prefix(s, n) == 0,
    decreases n,
{
    if n > 0 {
        lemma_cnt_all_none(s, n - 1);
    }
}

/// Updating one cell changes the occupied count by the difference the new
/// value makes at that cell.
proof fn lemma_cnt_update(s: Seq<Option<Block>>, i: int, v: Option<Block>, n: int)
    requires
        0 <= i < s.len(),
        n <= s.len(),
    ensures
        cnt_prefix(s.update(i, v), n) == cnt_prefix(s, n) + if i < n {
            occ(v) - occ(s[i])
        } else {
            0
        },
    decreases n,
{
    if n > 0 {
        lemma_cnt_update(s, i, v, n - 1);
    }
}

/// `erase_shift` keeps the grid size, removes exactly the block that stood
/// in the erased cell, leaves every cell outside the shifted column prefix
/// unchanged, and writes only `None` or values already present in `s`.
proof fn lemma_erase_shift(s: Seq<Option<Block>>, c: int, k: int)
    requires
        s.len() == 36,
        valid_coord(c, k),
    ensures
        erase_shift(s, c, k).len() == 36,
        count_occ(erase_shift(s, c, k)) == count_occ(s) - occ(s[grid_idx(c, k)]),
        forall|c2: int, k2: int|
            valid_coord(c2, k2) && (c2 != c || k2 > k) ==> erase_shift(s, c, k)[
                #[trigger] grid_idx(c2, k2)
            ] == s[grid_idx(c2, k2)],
        no_wild(s) ==> no_wild(erase_shift(s, c, k)),
    decreases k,
{
    if k <= 0 {
        lemma_cnt_update(s, grid_idx(c, 0), None, 36);
    } else {
        let s1 = s.update(grid_idx(c, k), s[grid_idx(c, k - 1)]);
        lemma_cnt_update(s, grid_idx(c, k), s[grid_idx(c, k - 1)], 36);
        lemma_erase_shift(s1, c, k - 1);
        assert(count_occ(s1) == count_occ(s) - occ(s[grid_idx(c, k)]) + occ(s[grid_idx(c, k - 1)]));
        assert(s1[grid_idx(c, k - 1)] == s[grid_idx(c, k - 1)]);
    }
}

/// `erase_plain` removes exactly the block that stood in the erased cell
/// and leaves every other cell unchanged.
proof fn lemma_erase_plain(s: Seq<Option<Block>>, c: int, k: int)
    requires
        s.len() == 36,
        valid_coord(c, k),
    ensures
        erase_plain(s, c, k).len() == 36,
        count_occ(erase_plain(s, c, k)) == count_occ(s) - occ(s[grid_idx(c, k)]),
        forall|c2: int, k2: int|
            valid_coord(c2, k2) && (c2 != c || k2 != k) ==> erase_plain(s, c, k)[
                #[trigger] grid_idx(c2, k2)
            ] == s[grid_idx(c2, k2)],
        no_wild(s) ==> no_wild(erase_plain(s, c, k)),
{
    lemma_cnt_update(s, grid_idx(c, k), None, 36);
}


/// Positions reported by `first_hit_from` are in range, hold a block, and
/// everything before them along the path is empty.
proof fn lemma_first_hit(orig: Seq<Option<Block>>, path: Seq<(int, int)>, k: int)
    requires
        0 <= k <= path.len(),
    ensures
        match first_hit_from(orig, path, k) {
            Some(p) => k <= p < path.len() && orig[grid_idx(path[p].0, path[p].1)] is Some,
            None => forall|j: int|
                k <= j < path.len() ==> orig[grid_idx(#[trigger] path[j].0, path[j].1)] is None,
        },
    decreases path.len() - k,
{
    if k < path.len() {
        lemma_first_hit(orig, path, k + 1);
    }
}

/// Size, absence of wild blocks, the occupied count never rising, and a
/// valid resting cell are preserved by the chain scan.
proof fn lemma_chain_scan(
    orig: Seq<Option<Block>>,
    cur: Seq<Option<Block>>,
    path: Seq<(int, int)>,
    k: int,
    first: Block,
    last: (int, int),
    hori: bool,
)
    requires
        orig.len() == 36,
        cur.len() == 36,
        path_wf(path),
        path_ok(path),
        0 <= k <= path.len(),
        forall|j: int|
            k <= j < path.len() ==> cur[grid_idx(#[trigger] path[j].0, path[j].1)] == orig[grid_idx(
                path[j].0,
                path[j].1,
            )],
        no_wild(cur),
        first != Block::Wild,
        valid_coord(last.0, last.1),
    ensures
        ({
            let (g, b, l) = chain_scan(orig, cur, path, k, first, last, hori);
            g.len() == 36 && no_wild(g) && count_occ(g) <= count_occ(cur) && valid_coord(l.0, l.1)
        }),
    decreases path.len() - k,
{
    if 0 <= k < path.len() {
        let (c, kk) = path[k];
        assert(valid_coord(c, kk));
        match orig[grid_idx(c, kk)] {
            None => {
                lemma_chain_scan(orig, cur, path, k + 1, first, (c, kk), hori);
            },
            Some(b) => {
                if b == first {
                    let cur2 = erase_cell(cur, c, kk, hori);
                    if hori {
                        lemma_erase_shift(cur, c, kk);
                    } else {
                        lemma_erase_plain(cur, c, kk);
                    }
                    assert forall|j: int| k + 1 <= j < path.len() implies cur2[grid_idx(
                        #[trigger] path[j].0,
                        path[j].1,
                    )] == orig[grid_idx(path[j].0, path[j].1)] by {
                        assert(path[j].0 != c || path[j].1 > kk);
                    }
                    lemma_chain_scan(orig, cur2, path, k + 1, first, (c, kk), hori);
                } else {
                    let idx = grid_idx(c, kk);
                    lemma_cnt_update(cur, idx, Some(first), 36);
                    assert(cur[idx] == orig[idx]);
                }
            },
        }
    }
}

/// The chain scan's resting cell lies on the path at or after where it
/// started, and the scan erases at most one block per path cell it moved
/// past.
proof fn lemma_chain_scan_last(
    orig: Seq<Option<Block>>,
    cur: Seq<Option<Block>>,
    path: Seq<(int, int)>,
    k: int,
    first: Block,
    hori: bool,
    m0: int,
)
    requires
        orig.len() == 36,
        cur.len() == 36,
        path_wf(path),
        path_ok(path),
        0 <= k <= path.len(),
        forall|j: int|
            k <= j < path.len() ==> cur[grid_idx(#[trigger] path[j].0, path[j].1)] == orig[grid_idx(
                path[j].0,
                path[j].1,
            )],
        0 <= m0 < path.len(),
        m0 == k - 1,
    ensures
        ({
            let (g, b, l) = chain_scan(orig, cur, path, k, first, path[m0], hori);
            exists|m: int|
                m0 <= m < path.len() && l == path[m] && count_occ(cur) - count_occ(g) <= m - m0
        }),
    decreases path.len() - k,
{
    let (g, b, l) = chain_scan(orig, cur, path, k, first, path[m0], hori);
    if k >= path.len() {
        assert(m0 <= m0 < path.len() && l == path[m0] && count_occ(cur) - count_occ(g) <= 0);
    } else {
        let (c, kk) = path[k];
        assert(valid_coord(c, kk));
        match orig[grid_idx(c, kk)] {
            None => {
                lemma_chain_scan_last(orig, cur, path, k + 1, first, hori, k);
            },
            Some(b2) => {
                if b2 == first {
                    let cur2 = erase_cell(cur, c, kk, hori);
                    if hori {
                        lemma_erase_shift(cur, c, kk);
                    } else {
                        lemma_erase_plain(cur, c, kk);
                    }
                    assert(cur[grid_idx(c, kk)] == Some(b2));
                    assert(count_occ(cur2) == count_occ(cur) - 1);
                    assert forall|j: int| k + 1 <= j < path.len() implies cur2[grid_idx(
                        #[trigger] path[j].0,
                        path[j].1,
                    )] == orig[grid_idx(path[j].0, path[j].1)] by {
                        assert(path[j].0 != c || path[j].1 > kk);
                    }
                    lemma_chain_scan_last(orig, cur2, path, k + 1, first, hori, k);
                    let m = choose|m: int|
                        k <= m < path.len() && chain_scan(
                            orig,
                            cur2,
                            path,
                            k + 1,
                            first,
                            path[k],
                            hori,
                        ).2 == path[m] && count_occ(cur2) - count_occ(
                            chain_scan(orig, cur2, path, k + 1, first, path[k], hori).0,
                        ) <= m - k;
                    assert(l == path[m] && count_occ(cur) - count_occ(g) <= m - m0);
                } else {
                    let idx = grid_idx(c, kk);
                    lemma_cnt_update(cur, idx, Some(first), 36);
                    assert(cur[idx] == orig[idx]);
                    assert(m0 <= m0 < path.len() && l == path[m0] && count_occ(cur) - count_occ(g)
                        <= 0);
                }
            },
        }
    }
}

/// A resolved throw erases at most one block more than the path position
/// its scan came to rest at.
pub proof fn lemma_grid_move_erased(
    orig: Seq<Option<Block>>,
    path: Seq<(int, int)>,
    thrown: Block,
    hori: bool,
)
    requires
        orig.len() == 36,
        path_wf(path),
        path_ok(path),
    ensures
        match grid_move(orig, path, thrown, hori) {
            None => true,
            Some((g, b, l)) => exists|m: int|
                0 <= m < path.len() && l == path[m] && count_occ(orig) - count_occ(g) <= m + 1,
        },
{
    lemma_first_hit(orig, path, 0);
    match first_hit_from(orig, path, 0) {
        None => {},
        Some(p) => {
            let (c, k) = path[p];
            let first = orig[grid_idx(c, k)]->0;
            assert(valid_coord(c, k));
            if thrown.spec_can_erase(first) {
                let cur = erase_cell(orig, c, k, hori);
                if hori {
                    lemma_erase_shift(orig, c, k);
                } else {
                    lemma_erase_plain(orig, c, k);
                }
                assert(count_occ(cur) == count_occ(orig) - 1);
                assert forall|j: int| p + 1 <= j < path.len() implies cur[grid_idx(
                    #[trigger] path[j].0,
                    path[j].1,
                )] == orig[grid_idx(path[j].0, path[j].1)] by {
                    assert(path[j].0 != c || path[j].1 > k);
                }
                lemma_chain_scan_last(orig, cur, path, p + 1, first, hori, p);
                let (g, b, l) = chain_scan(orig, cur, path, p + 1, first, path[p], hori);
                let m = choose|m: int|
                    p <= m < path.len() && l == path[m] && count_occ(cur) - count_occ(g) <= m - p;
                assert(count_occ(orig) - count_occ(g) <= m + 1);
            }
        },
    }
}

/// A resolved throw keeps the grid well formed and strictly lowers the
/// number of blocks on it, so the resulting grid always differs from the
/// input grid.
pub proof fn lemma_grid_move(
    orig: Seq<Option<Block>>,
    path: Seq<(int, int)>,
    thrown: Block,
    hori: bool,
)
    requires
        orig.len() == 36,
        no_wild(orig),
        path_wf(path),
        path_ok(path),
    ensures
        match grid_move(orig, path, thrown, hori) {
            None => true,
            Some((g, b, l)) => g.len() == 36 && no_wild(g) && count_occ(g) < count_occ(orig)
                && valid_coord(l.0, l.1) && g != orig,
        },
{
    lemma_first_hit(orig, path, 0);
    match first_hit_from(orig, path, 0) {
        None => {},
        Some(p) => {
            let (c, k) = path[p];
            let first = orig[grid_idx(c, k)]->0;
            assert(valid_coord(c, k));
            if thrown.spec_can_erase(first) {
                let cur = erase_cell(orig, c, k, hori);
                if hori {
                    lemma_erase_shift(orig, c, k);
                } else {
                    lemma_erase_plain(orig, c, k);
                }
                assert(count_occ(cur) == count_occ(orig) - 1);
                assert forall|j: int| p + 1 <= j < path.len() implies cur[grid_idx(
                    #[trigger] path[j].0,
                    path[j].1,
                )] == orig[grid_idx(path[j].0, path[j].1)] by {
                    assert(path[j].0 != c || path[j].1 > k);
                }
                lemma_chain_scan(orig, cur, path, p + 1, first, (c, k), hori);
                let (g, b, l) = chain_scan(orig, cur, path, p + 1, first, (c, k), hori);
                assert(count_occ(g) < count_occ(orig));
            }
        },
    }
}

/// On a field with no blocks at all, every throw is rejected.
pub proof fn lemma_empty_grid_rejects(
    s: Seq<Option<Block>>,
    path: Seq<(int, int)>,
    thrown: Block,
    hori: bool,
)
    requires
        s.len() == 36,
        forall|i: int| 0 <= i < 36 ==> s[i] is None,
        path_wf(path),
    ensures
        grid_move(s, path, thrown, hori) is None,
{
    lemma_first_hit(s, path, 0);
    match first_hit_from(s, path, 0) {
        Some(p) => {
            assert(valid_coord(path[p].0, path[p].1));
            assert(s[grid_idx(path[p].0, path[p].1)] is None);
        },
        None => {},
    }
}

/// The path of a horizontal throw into 0-based row `r0`.
pub proof fn lemma_path_hori(r0: int)
    requires
        0 <= r0 < 6,
    ensures
        path_hori(r0).len() == 11 - r0,
        path_wf(path_hori(r0)),
        path_ok(path_hori(r0)),
        forall|i: int| 0 <= i < 6 ==> #[trigger] path_hori(r0)[i] == (5 - i, r0),
        forall|i: int| 6 <= i < 11 - r0 ==> #[trigger] path_hori(r0)[i] == (0int, r0 + i - 5),
{
    let p = path_hori(r0);
    assert forall|i: int| 6 <= i < 11 - r0 implies #[trigger] p[i] == (0int, r0 + i - 5) by {
        assert(p[i] == (0int, r0 + 1 + (i - 6)));
    }
}

/// The path of a vertical throw into 0-based column `c0`.
pub proof fn lemma_path_vert(c0: int)
    requires
        0 <= c0 < 6,
    ensures
        path_vert(c0).len() == 6,
        path_wf(path_vert(c0)),
        path_ok(path_vert(c0)),
        forall|i: int| 0 <= i < 6 ==> #[trigger] path_vert(c0)[i] == (c0, i),
{
}

/// The mathematical path a `Vec` of 0-based coordinates stands for.
pub open spec fn spec_path(p: Seq<(usize, usize)>) -> Seq<(int, int)> {
    p.map_values(|t: (usize, usize)| (t.0 as int, t.1 as int))
}

/// Resolution of a horizontal throw into `row` (0-based `r0`).
pub open spec fn spec_move_hori(s: Seq<Option<Block>>, r0: int, thrown: Block) -> Option<
    (Seq<Option<Block>>, Block, (int, int)),
> {
    grid_move(s, path_hori(r0), thrown, true)
}

/// Resolution of a vertical throw into `col` (0-based `c0`).
pub open spec fn spec_move_vert(s: Seq<Option<Block>>, c0: int, thrown: Block) -> Option<
    (Seq<Option<Block>>, Block, (int, int)),
> {
    grid_move(s, path_vert(c0), thrown, false)
}

impl Blocks {
    /// Write one cell by linear index.
    fn set_raw(&mut self, idx: usize, v: Option<Block>)
        requires
            idx < old(self)@.len(),
        ensures
            final(self)@ == old(self)@.update(idx as int, v),
    {
        self.cells[idx] = v;
    }

    /// Erase the cell at 0-based `(c, k)` under the policy of the throw
    /// orientation.
    fn erase_cell_exec(&mut self, c: usize, k: usize, hori: bool)
        requires
            old(self)@.len() == 36,
            c < 6,
            k < 6,
        ensures
            final(self)@ == erase_cell(old(self)@, c as int, k as int, hori),
            final(self)@.len() == 36,
    {
        if hori {
            let ghost s0 = self@;
            let mut kk = k;
            while kk >= 1
                invariant
                    kk <= k,
                    c < 6,
                    k < 6,
                    self@.len() == 36,
                    erase_shift(s0, c as int, k as int) == erase_shift(self@, c as int, kk as int),
                decreases kk,
            {
                let v = self.cells[6 * (kk - 1) + c];
                self.cells[6 * kk + c] = v;
                kk -= 1;
            }
            self.cells[c] = None;
            proof {
                assert(erase_shift(s0, c as int, k as int) == self@);
            }
        } else {
            self.cells[6 * k + c] = None;
        }
    }

    /// Position and color of the first block met along `path`, if any.
    fn find_first_hit(&self, path: &Vec<(usize, usize)>) -> (r: Option<(usize, Block)>)
        requires
            self@.len() == 36,
            forall|i: int| 0 <= i < path@.len() ==> (#[trigger] path@[i]).0 < 6 && path@[i].1 < 6,
        ensures
            match r {
                None => first_hit_from(self@, spec_path(path@), 0) is None,
                Some((p, b)) => p < path@.len() && first_hit_from(self@, spec_path(path@), 0)
                    == Some(p as int) && self@[grid_idx(path@[p as int].0 as int, path@[p as int].1 as int)]
                    == Some(b),
            },
    {
        let ghost sp = spec_path(path@);
        let n = path.len();
        let mut k: usize = 0;
        while k < n
            invariant
                0 <= k <= n,
                n == path@.len(),
                self@.len() == 36,
                sp == spec_path(path@),
                forall|i: int|
                    0 <= i < path@.len() ==> (#[trigger] path@[i]).0 < 6 && path@[i].1 < 6,
                first_hit_from(self@, sp, 0) == first_hit_from(self@, sp, k as int),
            decreases n - k,
        {
            let (c, kk) = path[k];
            match self.cells[6 * kk + c] {
                Some(b) => {
                    return Some((k, b));
                },
                None => {},
            }
            k += 1;
        }
        None
    }

    /// Resolve one throw along `path`. `None` means the thrown block found
    /// nothing it may erase: the move has no effect and must be rejected.
    fn do_move_impl(&self, path: &Vec<(usize, usize)>, block_move: Block, hori: bool) -> (r:
        Option<(Blocks, Block, BlocksSquare)>)
        requires
            self.wf(),
            forall|i: int| 0 <= i < path@.len() ==> (#[trigger] path@[i]).0 < 6 && path@[i].1 < 6,
            path_ok(spec_path(path@)),
        ensures
            match r {
                None => grid_move(self@, spec_path(path@), block_move, hori) is None,
                Some((g, b, sq)) => {
                    grid_move(self@, spec_path(path@), block_move, hori) matches Some(t) && g@
                        == t.0 && g.wf() && b == t.1 && sq.spec_inner() - 1 == grid_idx(
                        t.2.0,
                        t.2.1,
                    ) && valid_coord(t.2.0, t.2.1) && count_occ(g@) < count_occ(self@) && g@
                        != self@
                },
            },
    {
        let ghost sp = spec_path(path@);
        proof {
            assert(path_wf(sp));
        }
        let (p, first) = match self.find_first_hit(path) {
            None => {
                return None;
            },
            Some(hit) => hit,
        };
        if !block_move.can_erase(first) {
            return None;
        }
        let (pc, pk) = path[p];
        let mut res = self.duplicate();
        res.erase_cell_exec(pc, pk, hori);
        let ghost cur0 = res@;
        let ghost target = chain_scan(self@, cur0, sp, p + 1, first, (pc as int, pk as int), hori);
        proof {
            assert(grid_move(self@, sp, block_move, hori) == Some(target));
        }
        let mut last_c = pc;
        let mut last_k = pk;
        let mut held = first;
        let mut stopped = false;
        let n = path.len();
        let mut k: usize = p + 1;
        while k < n && !stopped
            invariant
                p < k <= n,
                n == path@.len(),
                sp == spec_path(path@),
                forall|i: int|
                    0 <= i < path@.len() ==> (#[trigger] path@[i]).0 < 6 && path@[i].1 < 6,
                self@.len() == 36,
                res@.len() == 36,
                last_c < 6,
                last_k < 6,
                !stopped ==> held == first,
                !stopped ==> chain_scan(
                    self@,
                    res@,
                    sp,
                    k as int,
                    first,
                    (last_c as int, last_k as int),
                    hori,
                ) == target,
                stopped ==> target == (res@, held, (last_c as int, last_k as int)),
            decreases n - k,
        {
            let (c, kk) = path[k];
            match self.cells[6 * kk + c] {
                None => {
                    last_c = c;
                    last_k = kk;
                    k += 1;
                },
                Some(b) => {
                    if b == first {
                        res.erase_cell_exec(c, kk, hori);
                        last_c = c;
                        last_k = kk;
                        k += 1;
                    } else {
                        res.set_raw(6 * kk + c, Some(first));
                        held = b;
                        stopped = true;
                        k = n;
                    }
                },
            }
        }
        proof {
            assert(target == (res@, held, (last_c as int, last_k as int)));
            if hori {
                lemma_erase_shift(self@, pc as int, pk as int);
            } else {
                lemma_erase_plain(self@, pc as int, pk as int);
            }
            assert forall|j: int| p + 1 <= j < sp.len() implies cur0[grid_idx(
                #[trigger] sp[j].0,
                sp[j].1,
            )] == self@[grid_idx(sp[j].0, sp[j].1)] by {
                assert(sp[j].0 != pc as int || sp[j].1 > pk as int);
            }
            assert(self@[grid_idx(pc as int, pk as int)] == Some(first));
            assert(first != Block::Wild);
            lemma_chain_scan(self@, cur0, sp, p + 1 as int, first, (pc as int, pk as int), hori);
            assert(count_occ(cur0) == count_occ(self@) - 1);
            assert(count_occ(res@) < count_occ(self@));
            assert(res@ != self@);
        }
        let sq = BlocksSquare::from_inner((6 * last_k + last_c + 1) as u8).unwrap();
        Some((res, held, sq))
    }

    /// Throw the held block horizontally into `row`; it flies leftward and,
    /// if it passes the whole row, falls down column `A`. Returns the new
    /// field, the next held block, and the square the scan last passed
    /// through (needed by the cost model), or `None` when the move has no
    /// effect.
    pub fn do_move_hori(&self, row: BlocksRow, block_move: Block) -> (r: Option<
        (Blocks, Block, BlocksSquare)>)
        requires
            self.wf(),
        ensures
            match r {
                None => spec_move_hori(self@, row.spec_inner() - 1, block_move) is None,
                Some((g, b, sq)) => {
                    spec_move_hori(self@, row.spec_inner() - 1, block_move) matches Some(t) && g@
                        == t.0 && g.wf() && b == t.1 && sq.spec_inner() - 1 == grid_idx(
                        t.2.0,
                        t.2.1,
                    ) && valid_coord(t.2.0, t.2.1) && count_occ(g@) < count_occ(self@) && g@
                        != self@
                },
            },
    {
        let r0 = row.to_index();
        let ghost r0i = r0 as int;
        proof {
            lemma_path_hori(r0i);
        }
        let mut path: Vec<(usize, usize)> = Vec::new();
        let mut i: usize = 0;
        while i < 6
            invariant
                0 <= i <= 6,
                r0 < 6,
                path@.len() == i,
                forall|j: int| 0 <= j < i ==> #[trigger] path@[j] == ((5 - j) as usize, r0),
            decreases 6 - i,
        {
            path.push((5 - i, r0));
            i += 1;
        }
        let mut j: usize = 0;
        while j < 5 - r0
            invariant
                r0 < 6,
                0 <= j <= 5 - r0,
                path@.len() == 6 + j,
                forall|t: int| 0 <= t < 6 ==> #[trigger] path@[t] == ((5 - t) as usize, r0),
                forall|t: int|
                    6 <= t < 6 + j ==> #[trigger] path@[t] == (0usize, (r0 + t - 5) as usize),
            decreases 5 - r0 - j,
        {
            path.push((0, r0 + 1 + j));
            j += 1;
        }
        proof {
            assert(spec_path(path@) =~= path_hori(r0i));
        }
        self.do_move_impl(&path, block_move, true)
    }

    /// Throw the held block vertically down into `col`. Returns the new
    /// field, the next held block, and the square the scan last passed
    /// through, or `None` when the move has no effect.
    pub fn do_move_vert(&self, col: BlocksCol, block_move: Block) -> (r: Option<
        (Blocks, Block, BlocksSquare)>)
        requires
            self.wf(),
        ensures
            match r {
                None => spec_move_vert(self@, col.spec_inner() - 1, block_move) is None,
                Some((g, b, sq)) => {
                    spec_move_vert(self@, col.spec_inner() - 1, block_move) matches Some(t) && g@
                        == t.0 && g.wf() && b == t.1 && sq.spec_inner() - 1 == grid_idx(
                        t.2.0,
                        t.2.1,
                    ) && valid_coord(t.2.0, t.2.1) && count_occ(g@) < count_occ(self@) && g@
                        != self@
                },
            },
    {
        let c0 = col.to_index();
        let ghost c0i = c0 as int;
        proof {
            lemma_path_vert(c0i);
        }
        let mut path: Vec<(usize, usize)> = Vec::new();
        let mut i: usize = 0;
        while i < 6
            invariant
                0 <= i <= 6,
                c0 < 6,
                path@.len() == i,
                forall|j: int| 0 <= j < i ==> #[trigger] path@[j] == (c0, j as usize),
            decreases 6 - i,
        {
            path.push((c0, i));
            i += 1;
        }
        proof {
            assert(spec_path(path@) =~= path_vert(c0i));
        }
        self.do_move_impl(&path, block_move, false)
    }
}


/// A valid coordinate pair is recovered from its linear index.
pub proof fn lemma_grid_idx_decomp(c: int, k: int)
    requires
        valid_coord(c, k),
    ensures
        grid_idx(c, k) % 6 == c,
        grid_idx(c, k) / 6 == k,
{
    assert((6 * k + c) % 6 == c && (6 * k + c) / 6 == k) by (nonlinear_arith)
        requires
            0 <= c < 6,
            0 <= k < 6,
    ;
}

/// The occupied count of a prefix is between zero and the prefix length.
pub proof fn lemma_cnt_prefix_bounds(s: Seq<Option<Block>>, n: int)
    requires
        0 <= n <= s.len(),
    ensures
        0 <= cnt_prefix(s, n) <= n,
    decreases n,
{
    if n > 0 {
        lemma_cnt_prefix_bounds(s, n - 1);
    }
}

/// The occupied count of a grid is between zero and its size.
pub proof fn lemma_count_occ_bounds(s: Seq<Option<Block>>)
    ensures
        0 <= count_occ(s) <= s.len(),
{
    lemma_cnt_prefix_bounds(s, s.len() as int);
}

/// A linear grid index decomposes into its coordinates.
pub proof fn lemma_idx_to_coord(i: int)
    requires
        0 <= i < 36,
    ensures
        valid_coord(i % 6, i / 6),
        grid_idx(i % 6, i / 6) == i,
{
    assert(0 <= i % 6 < 6 && 0 <= i / 6 < 6 && 6 * (i / 6) + i % 6 == i) by (nonlinear_arith)
        requires
            0 <= i < 36,
    ;
}

/// On an empty field every throw is rejected, whatever its color and
/// whichever row or column it enters through.
pub proof fn lemma_empty_field_rejects(s: Seq<Option<Block>>, thrown: Block)
    requires
        s.len() == 36,
        forall|i: int| 0 <= i < 36 ==> s[i] is None,
    ensures
        forall|r0: int| 0 <= r0 < 6 ==> #[trigger] spec_move_hori(s, r0, thrown) is None,
        forall|c0: int| 0 <= c0 < 6 ==> #[trigger] spec_move_vert(s, c0, thrown) is None,
{
    assert forall|r0: int| 0 <= r0 < 6 implies #[trigger] spec_move_hori(s, r0, thrown) is None by {
        lemma_path_hori(r0);
        lemma_empty_grid_rejects(s, path_hori(r0), thrown, true);
    }
    assert forall|c0: int| 0 <= c0 < 6 implies #[trigger] spec_move_vert(s, c0, thrown) is None by {
        lemma_path_vert(c0);
        lemma_empty_grid_rejects(s, path_vert(c0), thrown, false);
    }
}


/// The block with numeric identifier `i`.
pub open spec fn block_of_inner(i: int) -> Block {
    if i == 1 {
        Block::Normal1
    } else if i == 2 {
        Block::Normal2
    } else if i == 3 {
        Block::Normal3
    } else if i == 4 {
        Block::Normal4
    } else {
        Block::Wild
    }
}

/// The character that encodes one block-field cell.
pub open spec fn block_char(b: Option<Block>) -> char {
    match b {
        None => '.',
        Some(Block::Normal1) => '1',
        Some(Block::Normal2) => '2',
        Some(Block::Normal3) => '3',
        Some(Block::Normal4) => '4',
        Some(Block::Wild) => '5',
    }
}

/// The block-field cell a character encodes, if any; the wild block has no
/// place on the board and is rejected.
pub open spec fn char_block(c: char) -> Option<Option<Block>> {
    if c == '.' {
        Some(None)
    } else if c == '1' {
        Some(Some(Block::Normal1))
    } else if c == '2' {
        Some(Some(Block::Normal2))
    } else if c == '3' {
        Some(Some(Block::Normal3))
    } else if c == '4' {
        Some(Some(Block::Normal4))
    } else {
        None
    }
}

/// Text of one grid row (0-based `k`), with its line ending.
pub open spec fn fmt_blocks_row(g: Seq<Option<Block>>, k: int) -> Seq<char> {
    Seq::new(6, |c: int| block_char(g[grid_idx(c, k)])) + seq!['\n']
}

/// Text of the first `k` grid rows.
pub open spec fn fmt_blocks_upto(g: Seq<Option<Block>>, k: int) -> Seq<char>
    decreases k,
{
    if k <= 0 {
        Seq::empty()
    } else {
        fmt_blocks_upto(g, k - 1) + fmt_blocks_row(g, k - 1)
    }
}

/// The text encoding of a block field: six lines of six cell characters.
pub open spec fn spec_blocks_text(g: Seq<Option<Block>>) -> Seq<char> {
    fmt_blocks_upto(g, 6)
}

/// Cells of one grid row line read left to right; the first bad character
/// is reported with its position.
pub open spec fn spec_parse_grid_row(line: Seq<char>, li: int, j: int) -> Result<
    Seq<Option<Block>>,
    ParseError,
>
    decreases 6 - j,
{
    if j >= 6 {
        Ok(Seq::empty())
    } else {
        match char_block(line[j]) {
            None => Err(ParseError::BadChar { line: li as usize, column: j as usize, ch: line[j] }),
            Some(b) => match spec_parse_grid_row(line, li, j + 1) {
                Err(e) => Err(e),
                Ok(rest) => Ok(seq![b] + rest),
            },
        }
    }
}

/// Cells of grid row lines `i` and following, concatenated row-major.
pub open spec fn spec_parse_grid_rows(lines: Seq<Seq<char>>, i: int) -> Result<
    Seq<Option<Block>>,
    ParseError,
>
    decreases lines.len() - i,
{
    if i >= lines.len() {
        Ok(Seq::empty())
    } else if lines[i].len() != 6 {
        Err(
            ParseError::WrongLineLength {
                line: i as usize,
                expected: 6,
                found: lines[i].len() as usize,
            },
        )
    } else {
        match spec_parse_grid_row(lines[i], i, 0) {
            Err(e) => Err(e),
            Ok(cells) => match spec_parse_grid_rows(lines, i + 1) {
                Err(e) => Err(e),
                Ok(rest) => Ok(cells + rest),
            },
        }
    }
}

/// Reading a block field from its text: exactly six lines of exactly six
/// cell characters.
pub open spec fn spec_parse_blocks(s: Seq<char>) -> Result<Seq<Option<Block>>, ParseError> {
    let lines = split_nl(s);
    if lines.len() != 6 {
        Err(ParseError::WrongLineCount { expected: 6, found: lines.len() as usize })
    } else {
        spec_parse_grid_rows(lines, 0)
    }
}

/// One parsed grid row line.
fn parse_grid_row(line: &Vec<char>, li: usize) -> (r: Result<Vec<Option<Block>>, ParseError>)
    requires
        line@.len() == 6,
    ensures
        match r {
            Ok(cells) => spec_parse_grid_row(line@, li as int, 0) == Ok::<
                Seq<Option<Block>>,
                ParseError,
            >(cells@) && cells@.len() == 6 && no_wild(cells@),
            Err(e) => spec_parse_grid_row(line@, li as int, 0) == Err::<
                Seq<Option<Block>>,
                ParseError,
            >(e),
        },
{
    let mut cells: Vec<Option<Block>> = Vec::new();
    let mut j: usize = 0;
    while j < 6
        invariant
            0 <= j <= 6,
            line@.len() == 6,
            cells@.len() == j,
            no_wild(cells@),
            spec_parse_grid_row(line@, li as int, 0) == (match spec_parse_grid_row(
                line@,
                li as int,
                j as int,
            ) {
                Err(e) => Err::<Seq<Option<Block>>, ParseError>(e),
                Ok(rest) => Ok::<Seq<Option<Block>>, ParseError>(cells@ + rest),
            }),
        decreases 6 - j,
    {
        let b = match Blocks::char_to_block(line[j]) {
            None => {
                return Err(ParseError::BadChar { line: li, column: j, ch: line[j] });
            },
            Some(b) => b,
        };
        proof {
            match spec_parse_grid_row(line@, li as int, j as int + 1) {
                Err(e) => {},
                Ok(rest) => {
                    assert(cells@ + (seq![b] + rest) =~= cells@.push(b) + rest);
                },
            }
        }
        cells.push(b);
        j += 1;
    }
    proof {
        assert(cells@ + Seq::<Option<Block>>::empty() =~= cells@);
    }
    Ok(cells)
}

impl Blocks {
    /// The character that encodes one cell. A wild block never stands on
    /// the board, so every cell has an encoding.
    pub fn block_to_char(block: Option<Block>) -> (r: char)
        requires
            block != Some(Block::Wild),
        ensures
            r == block_char(block),
            spec_emit_char(r),
    {
        match block {
            None => '.',
            Some(Block::Normal1) => '1',
            Some(Block::Normal2) => '2',
            Some(Block::Normal3) => '3',
            Some(Block::Normal4) => '4',
            Some(Block::Wild) => '5',
        }
    }

    /// The cell a character encodes, if any.
    pub fn char_to_block(ch: char) -> (r: Option<Option<Block>>)
        ensures
            r == char_block(ch),
    {
        match ch {
            '.' => Some(None),
            '1' => Some(Some(Block::Normal1)),
            '2' => Some(Some(Block::Normal2)),
            '3' => Some(Some(Block::Normal3)),
            '4' => Some(Some(Block::Normal4)),
            _ => None,
        }
    }

    /// The text encoding of the field: six lines of six cell characters.
    pub fn to_text(&self) -> (r: String)
        requires
            self.wf(),
        ensures
            r@ == spec_blocks_text(self@),
    {
        let mut out = String::new();
        let mut k: usize = 0;
        while k < 6
            invariant
                0 <= k <= 6,
                self.wf(),
                out@ == fmt_blocks_upto(self@, k as int),
            decreases 6 - k,
        {
            let mut c: usize = 0;
            while c < 6
                invariant
                    0 <= c <= 6,
                    0 <= k < 6,
                    self.wf(),
                    out@ == fmt_blocks_upto(self@, k as int) + Seq::new(
                        c as nat,
                        |cc: int| block_char(self@[grid_idx(cc, k as int)]),
                    ),
                decreases 6 - c,
            {
                let cell = self.cells[6 * k + c];
                append_char(&mut out, Blocks::block_to_char(cell));
                proof {
                    assert(out@ =~= fmt_blocks_upto(self@, k as int) + Seq::new(
                        (c + 1) as nat,
                        |cc: int| block_char(self@[grid_idx(cc, k as int)]),
                    ));
                }
                c += 1;
            }
            append_char(&mut out, '\n');
            proof {
                assert(out@ =~= fmt_blocks_upto(self@, k as int + 1));
            }
            k += 1;
        }
        out
    }

    /// Read a block field from its text encoding.
    pub fn parse(s: &str) -> (r: Result<Blocks, ParseError>)
        ensures
            match r {
                Ok(b) => spec_parse_blocks(s@) == Ok::<Seq<Option<Block>>, ParseError>(b@)
                    && b.wf(),
                Err(e) => spec_parse_blocks(s@) == Err::<Seq<Option<Block>>, ParseError>(e),
            },
    {
        let chars = chars_of(s);
        proof {
            assert(chars@.skip(0) =~= s@);
        }
        let lines = split_lines_at(&chars, 0);
        let ghost linesv = views_of(lines@);
        if lines.len() != 6 {
            return Err(ParseError::WrongLineCount { expected: 6, found: lines.len() });
        }
        let mut cells: Vec<Option<Block>> = Vec::new();
        let mut i: usize = 0;
        while i < 6
            invariant
                0 <= i <= 6,
                lines@.len() == 6,
                linesv == views_of(lines@),
                linesv.len() == 6,
                cells@.len() == 6 * i,
                no_wild(cells@),
                spec_parse_grid_rows(linesv, 0) == (match spec_parse_grid_rows(linesv, i as int) {
                    Err(e) => Err::<Seq<Option<Block>>, ParseError>(e),
                    Ok(rest) => Ok::<Seq<Option<Block>>, ParseError>(cells@ + rest),
                }),
            decreases 6 - i,
        {
            let line = &lines[i];
            proof {
                assert(line@ == linesv[i as int]);
            }
            if line.len() != 6 {
                return Err(ParseError::WrongLineLength { line: i, expected: 6, found: line.len() });
            }
            let mut row = match parse_grid_row(line, i) {
                Err(e) => {
                    return Err(e);
                },
                Ok(row) => row,
            };
            proof {
                match spec_parse_grid_rows(linesv, i as int + 1) {
                    Err(e) => {},
                    Ok(rest) => {
                        assert(cells@ + (row@ + rest) =~= (cells@ + row@) + rest);
                    },
                }
            }
            cells.append(&mut row);
            i += 1;
        }
        proof {
            assert(cells@ + Seq::<Option<Block>>::empty() =~= cells@);
        }
        Ok(Blocks { cells })
    }
}


/// The cell characters of one grid row line.
pub open spec fn blocks_row_cells(g: Seq<Option<Block>>, k: int) -> Seq<char> {
    Seq::new(6, |c: int| block_char(g[grid_idx(c, k)]))
}

/// Text of grid rows `k` and following.
spec fn fmt_blocks_from(g: Seq<Option<Block>>, k: int) -> Seq<char>
    decreases 6 - k,
{
    if k < 0 || k >= 6 {
        Seq::empty()
    } else {
        fmt_blocks_row(g, k) + fmt_blocks_from(g, k + 1)
    }
}

/// The whole grid text is the rows before `j` followed by the rows from `j`.
proof fn lemma_fmt_blocks_split(g: Seq<Option<Block>>, j: int)
    requires
        0 <= j <= 6,
    ensures
        fmt_blocks_upto(g, j) + fmt_blocks_from(g, j) == spec_blocks_text(g),
    decreases 6 - j,
{
    if j == 6 {
        assert(fmt_blocks_upto(g, 6) + fmt_blocks_from(g, 6) =~= fmt_blocks_upto(g, 6));
    } else {
        lemma_fmt_blocks_split(g, j + 1);
        assert(fmt_blocks_upto(g, j) + (fmt_blocks_row(g, j) + fmt_blocks_from(g, j + 1)) =~= (
        fmt_blocks_upto(g, j) + fmt_blocks_row(g, j)) + fmt_blocks_from(g, j + 1));
    }
}

/// No cell character is a line ending.
proof fn lemma_blocks_row_cells_no_nl(g: Seq<Option<Block>>, k: int)
    ensures
        forall|i: int| 0 <= i < 6 ==> #[trigger] blocks_row_cells(g, k)[i] != '\n',
{
}

/// Splitting the text of the rows from `k` yields one line per row.
proof fn lemma_split_blocks_from(g: Seq<Option<Block>>, k: int)
    requires
        0 <= k <= 6,
    ensures
        split_nl(fmt_blocks_from(g, k)).len() == 6 - k,
        forall|j: int|
            0 <= j < 6 - k ==> #[trigger] split_nl(fmt_blocks_from(g, k))[j] == blocks_row_cells(
                g,
                k + j,
            ),
    decreases 6 - k,
{
    if k == 6 {
        assert(split_nl(fmt_blocks_from(g, 6)).len() == 0);
    } else {
        lemma_split_blocks_from(g, k + 1);
        lemma_blocks_row_cells_no_nl(g, k);
        assert(fmt_blocks_from(g, k) =~= blocks_row_cells(g, k) + seq!['\n'] + fmt_blocks_from(
            g,
            k + 1,
        ));
        lemma_split_nl_concat(blocks_row_cells(g, k), fmt_blocks_from(g, k + 1));
    }
}

/// Reading one formatted grid row back yields its cells.
proof fn lemma_parse_fmt_grid_row(g: Seq<Option<Block>>, k: int, j: int)
    requires
        g.len() == 36,
        no_wild(g),
        0 <= k < 6,
        0 <= j <= 6,
    ensures
        spec_parse_grid_row(blocks_row_cells(g, k), k, j) == Ok::<Seq<Option<Block>>, ParseError>(
            Seq::new((6 - j) as nat, |c: int| g[grid_idx(j + c, k)]),
        ),
    decreases 6 - j,
{
    let line = blocks_row_cells(g, k);
    if j >= 6 {
        assert(Seq::new(0, |c: int| g[grid_idx(j + c, k)]) =~= Seq::<Option<Block>>::empty());
    } else {
        let cell = g[grid_idx(j, k)];
        assert(0 <= grid_idx(j, k) < 36);
        assert(cell != Some(Block::Wild));
        assert(line[j] == block_char(cell));
        assert(char_block(block_char(cell)) == Some(cell));
        lemma_parse_fmt_grid_row(g, k, j + 1);
        assert(seq![cell] + Seq::new((5 - j) as nat, |c: int| g[grid_idx(j + 1 + c, k)]) =~= Seq::new(
            (6 - j) as nat,
            |c: int| g[grid_idx(j + c, k)],
        ));
    }
}

/// Reading the formatted rows from `i` back yields the grid cells from row
/// `i` on.
proof fn lemma_parse_fmt_grid_rows(g: Seq<Option<Block>>, lines: Seq<Seq<char>>, i: int)
    requires
        g.len() == 36,
        no_wild(g),
        lines.len() == 6,
        0 <= i <= 6,
        forall|j: int| 0 <= j < 6 ==> #[trigger] lines[j] == blocks_row_cells(g, j),
    ensures
        spec_parse_grid_rows(lines, i) == Ok::<Seq<Option<Block>>, ParseError>(g.skip(6 * i)),
    decreases 6 - i,
{
    if i >= 6 {
        assert(g.skip(36) =~= Seq::<Option<Block>>::empty());
    } else {
        assert(lines[i].len() == 6);
        lemma_parse_fmt_grid_row(g, i, 0);
        lemma_parse_fmt_grid_rows(g, lines, i + 1);
        assert(Seq::new(6, |c: int| g[grid_idx(0 + c, i)]) + g.skip(6 * (i + 1)) =~= g.skip(6 * i));
    }
}

/// Reading a well-formed field's text back yields the field: the grid text
/// encoding round-trips.
pub proof fn lemma_blocks_round_trip(g: Seq<Option<Block>>)
    requires
        g.len() == 36,
        no_wild(g),
    ensures
        spec_parse_blocks(spec_blocks_text(g)) == Ok::<Seq<Option<Block>>, ParseError>(g),
{
    lemma_fmt_blocks_split(g, 0);
    assert(fmt_blocks_upto(g, 0) + fmt_blocks_from(g, 0) =~= fmt_blocks_from(g, 0));
    assert(spec_blocks_text(g) == fmt_blocks_from(g, 0));
    lemma_split_blocks_from(g, 0);
    let lines = split_nl(spec_blocks_text(g));
    assert(forall|j: int| 0 <= j < 6 ==> #[trigger] lines[j] == blocks_row_cells(g, j));
    lemma_parse_fmt_grid_rows(g, lines, 0);
    assert(g.skip(0) =~= g);
}

} // verus!
