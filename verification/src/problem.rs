//! The static puzzle definition: an 8x12 tile board embedding the 6x6 block
//! field, plus the held block and the move budget; and its compilation into
//! an initial game state and the fixed list of legal move origins.

use vstd::prelude::*;

use crate::block::{
    block_char, block_of_inner, grid_idx, lemma_grid_idx_decomp, valid_coord, Block, Blocks,
    BlocksCol, BlocksRow, BLOCKS_COL_A,
};
use crate::error::{ParseError, ProblemError};
use crate::text::{
    append_char, append_dec, chars_of, dec_digits, find_nl, lemma_dec_digits_are_digits,
    lemma_digits_not_ws, lemma_find_nl_concat, lemma_parse_u8_of_digits, lemma_split_nl_concat,
    lemma_ws_tokens_concat, lemma_ws_tokens_single, parse_u8_token, spec_emit_char, spec_is_ws,
    spec_parse_u8, split_lines_at, split_nl, tokens_at, views_of, ws_tokens,
};
use crate::move_::{Move, MoveDst, MoveSrc};
use crate::position::{PosV, Position};

verus! {

/// One tile of the puzzle board.
#[derive(Clone, Copy, Debug, Eq, PartialEq, Structural)]
pub enum ProblemTile {
    Block(Block),
    Wall,
    Pipe,
}

impl ProblemTile {
    pub fn is_block(self) -> (r: bool)
        ensures
            r == (self matches ProblemTile::Block(_)),
    {
        matches!(self, ProblemTile::Block(_))
    }

    pub fn is_normal_block(self) -> (r: bool)
        ensures
            r == (self matches ProblemTile::Block(b) && !b.spec_is_wild()),
    {
        match self {
            ProblemTile::Block(b) => b.is_normal(),
            _ => false,
        }
    }

    pub fn is_wild_block(self) -> (r: bool)
        ensures
            r == (self == ProblemTile::Block(Block::Wild)),
    {
        matches!(self, ProblemTile::Block(Block::Wild))
    }

    pub fn is_wall(self) -> (r: bool)
        ensures
            r == (self is Wall),
    {
        matches!(self, ProblemTile::Wall)
    }

    pub fn is_pipe(self) -> (r: bool)
        ensures
            r == (self is Pipe),
    {
        matches!(self, ProblemTile::Pipe)
    }
}

/// Linear index of board column `col` and board row `row` (8 columns, 12
/// rows, row-major from the top of the text encoding).
pub open spec fn board_idx(col: int, row: int) -> int {
    8 * row + col
}

/// Whether a board cell lies in the bottom-left 6x6 block area.
pub open spec fn in_blocks_area(col: int, row: int) -> bool {
    0 <= col < 6 && 6 <= row < 12
}

/// The 8x12 puzzle board.
#[derive(Clone, Debug)]
pub struct ProblemBoard {
    pub tiles: Vec<Option<ProblemTile>>,
}

impl View for ProblemBoard {
    type V = Seq<Option<ProblemTile>>;

    open spec fn view(&self) -> Seq<Option<ProblemTile>> {
        self.tiles@
    }
}

impl PartialEq for ProblemBoard {
    fn eq(&self, other: &ProblemBoard) -> (r: bool) {
        if self.tiles.len() != other.tiles.len() {
            return false;
        }
        let n = self.tiles.len();
        let mut i: usize = 0;
        while i < n
            invariant
                0 <= i <= n,
                n == self@.len(),
                n == other@.len(),
                forall|j: int| 0 <= j < i ==> self@[j] == other@[j],
            decreases n - i,
        {
            let same = match (self.tiles[i], other.tiles[i]) {
                (None, None) => true,
                (Some(a), Some(b)) => a == b,
                _ => false,
            };
            if !same {
                return false;
            }
            i += 1;
        }
        proof {
            assert(self@ =~= other@);
        }
        true
    }
}

impl vstd::std_specs::cmp::PartialEqSpecImpl for ProblemBoard {
    open spec fn obeys_eq_spec() -> bool {
        true
    }

    open spec fn eq_spec(&self, other: &ProblemBoard) -> bool {
        self@ == other@
    }
}

impl Default for ProblemBoard {
    /// An empty board.
    fn default() -> (r: ProblemBoard)
        ensures
            r.wf(),
            forall|i: int| 0 <= i < 96 ==> r@[i] is None,
    {
        ProblemBoard::new()
    }
}

impl ProblemBoard {
    /// A well-formed board: exactly 8 x 12 tiles.
    pub open spec fn wf(&self) -> bool {
        self@.len() == 96
    }

    /// An empty board.
    pub fn new() -> (r: ProblemBoard)
        ensures
            r.wf(),
            forall|i: int| 0 <= i < 96 ==> r@[i] is None,
    {
        ProblemBoard { tiles: vec![None; 96] }
    }

    /// The tile at board column `col` and row `row`.
    pub fn get(&self, col: usize, row: usize) -> (r: Option<ProblemTile>)
        requires
            self.wf(),
            col < 8,
            row < 12,
        ensures
            r == self@[board_idx(col as int, row as int)],
    {
        self.tiles[8 * row + col]
    }

    /// Write the tile at board column `col` and row `row`.
    pub fn set(&mut self, col: usize, row: usize, t: Option<ProblemTile>)
        requires
            old(self).wf(),
            col < 8,
            row < 12,
        ensures
            final(self)@ == old(self)@.update(board_idx(col as int, row as int), t),
            final(self).wf(),
    {
        self.tiles[8 * row + col] = t;
    }
}

/// The rule one board cell must obey, and the error reported where it does
/// not: inside the block area only empty tiles and normal blocks; outside
/// it no blocks at all, and every wall resting against the board's top edge
/// or another wall.
pub open spec fn spec_check_cell(b: Seq<Option<ProblemTile>>, col: int, row: int) -> Option<
    ProblemError,
> {
    let t = b[board_idx(col, row)];
    if in_blocks_area(col, row) {
        if t is None || (t matches Some(ProblemTile::Block(blk)) && blk != Block::Wild) {
            None
        } else {
            Some(ProblemError::BadAreaTile { col: col as usize, row: row as usize })
        }
    } else {
        if t matches Some(ProblemTile::Block(_)) {
            Some(ProblemError::BlockOutsideArea { col: col as usize, row: row as usize })
        } else if t == Some(ProblemTile::Wall) && row > 0 && b[board_idx(col, row - 1)] != Some(
            ProblemTile::Wall,
        ) {
            Some(ProblemError::FloatingWall { col: col as usize, row: row as usize })
        } else {
            None
        }
    }
}

/// The first rule violation in reading order, if any.
pub open spec fn spec_check_from(b: Seq<Option<ProblemTile>>, row: int, col: int) -> Option<
    ProblemError,
>
    decreases 12 - row, 8 - col,
{
    if row < 0 || row >= 12 {
        None
    } else if col < 0 || col >= 8 {
        spec_check_from(b, row + 1, 0)
    } else {
        match spec_check_cell(b, col, row) {
            Some(e) => Some(e),
            None => spec_check_from(b, row, col + 1),
        }
    }
}

pub open spec fn spec_problem_check(b: Seq<Option<ProblemTile>>) -> Option<ProblemError> {
    spec_check_from(b, 0, 0)
}

/// Every board cell obeys the ADVANCE-mode rules.
pub open spec fn problem_ok(b: Seq<Option<ProblemTile>>) -> bool {
    forall|col: int, row: int|
        0 <= col < 8 && 0 <= row < 12 ==> #[trigger] spec_check_cell(b, col, row) is None
}

/// The scan finds no violation at or after `(row, col)` exactly when every
/// cell at or after `(row, col)` in reading order obeys its rule.
proof fn lemma_check_from_iff(b: Seq<Option<ProblemTile>>, row: int, col: int)
    requires
        0 <= row <= 12,
        0 <= col <= 8,
    ensures
        (spec_check_from(b, row, col) is None) <==> (forall|c: int, r: int|
            0 <= c < 8 && 0 <= r < 12 && (r > row || (r == row && c >= col))
                ==> #[trigger] spec_check_cell(b, c, r) is None),
    decreases 12 - row, 8 - col,
{
    if row >= 12 {
    } else if col >= 8 {
        lemma_check_from_iff(b, row + 1, 0);
    } else {
        lemma_check_from_iff(b, row, col + 1);
    }
}

/// A board passes the whole scan exactly when every cell obeys its rule.
pub proof fn lemma_problem_check_iff(b: Seq<Option<ProblemTile>>)
    ensures
        (spec_problem_check(b) is None) <==> problem_ok(b),
{
    lemma_check_from_iff(b, 0, 0);
}

/// A puzzle: the tile board, the block first held, and the move budget.
#[derive(Clone, Debug)]
pub struct Problem {
    pub board: ProblemBoard,
    pub block_holding: Block,
    pub move_remain: u8,
}

impl PartialEq for Problem {
    fn eq(&self, other: &Problem) -> (r: bool) {
        self.board == other.board && self.block_holding == other.block_holding
            && self.move_remain == other.move_remain
    }
}

impl vstd::std_specs::cmp::PartialEqSpecImpl for Problem {
    open spec fn obeys_eq_spec() -> bool {
        true
    }

    open spec fn eq_spec(&self, other: &Problem) -> bool {
        self.board@ == other.board@ && self.block_holding == other.block_holding
            && self.move_remain == other.move_remain
    }
}

/// The mathematical value of a `Problem`.
pub struct ProbV {
    pub board: Seq<Option<ProblemTile>>,
    pub held: Block,
    pub remain: int,
}

impl View for Problem {
    type V = ProbV;

    open spec fn view(&self) -> ProbV {
        ProbV { board: self.board@, held: self.block_holding, remain: self.move_remain as int }
    }
}

/// The rule check for one cell, as the constructor runs it.
fn check_cell(board: &ProblemBoard, col: usize, row: usize) -> (r: Option<ProblemError>)
    requires
        board.wf(),
        col < 8,
        row < 12,
    ensures
        r == spec_check_cell(board@, col as int, row as int),
{
    let t = board.get(col, row);
    if col < 6 && 6 <= row {
        match t {
            None => None,
            Some(ProblemTile::Block(blk)) => {
                if blk.is_wild() {
                    Some(ProblemError::BadAreaTile { col, row })
                } else {
                    None
                }
            },
            Some(_) => Some(ProblemError::BadAreaTile { col, row }),
        }
    } else {
        match t {
            Some(ProblemTile::Block(_)) => Some(ProblemError::BlockOutsideArea { col, row }),
            Some(ProblemTile::Wall) => {
                if row > 0 {
                    let above = board.get(col, row - 1);
                    if matches!(above, Some(ProblemTile::Wall)) {
                        None
                    } else {
                        Some(ProblemError::FloatingWall { col, row })
                    }
                } else {
                    None
                }
            },
            _ => None,
        }
    }
}

impl Problem {
    /// A well-formed puzzle: a full board on which every cell obeys the
    /// ADVANCE-mode rules.
    pub open spec fn wf(&self) -> bool {
        self.board.wf() && problem_ok(self.board@)
    }

    /// Build a puzzle, checking the ADVANCE-mode board rules: only empty
    /// tiles and normal blocks inside the block area, no blocks outside it,
    /// and no floating wall. The first violation in reading order is
    /// reported.
    pub fn new(board: ProblemBoard, block_holding: Block, move_remain: u8) -> (r: Result<
        Problem,
        ProblemError,
    >)
        requires
            board.wf(),
        ensures
            match spec_problem_check(board@) {
                None => r matches Ok(p) && p@.board == board@ && p@.held == block_holding
                    && p@.remain == move_remain as int && p.wf(),
                Some(e) => r == Err::<Problem, ProblemError>(e),
            },
            r is Ok <==> problem_ok(board@),
    {
        proof {
            lemma_problem_check_iff(board@);
        }
        let mut row: usize = 0;
        while row < 12
            invariant
                0 <= row <= 12,
            board.wf(),
                spec_check_from(board@, 0, 0) == spec_check_from(board@, row as int, 0),
            decreases 12 - row,
        {
            let mut col: usize = 0;
            while col < 8
                invariant
                    0 <= row < 12,
                    0 <= col <= 8,
                    board.wf(),
                    spec_check_from(board@, 0, 0) == spec_check_from(board@, row as int, col as int),
                decreases 8 - col,
            {
                match check_cell(&board, col, row) {
                    Some(e) => {
                        return Err(e);
                    },
                    None => {},
                }
                col += 1;
            }
            row += 1;
        }
        Ok(Problem { board, block_holding, move_remain })
    }

    pub fn board(&self) -> (r: &ProblemBoard)
        ensures
            r@ == self@.board,
    {
        &self.board
    }

    pub fn block_holding(&self) -> (r: Block)
        ensures
            r == self@.held,
    {
        self.block_holding
    }

    pub fn move_remain(&self) -> (r: u8)
        ensures
            r as int == self@.remain,
    {
        self.move_remain
    }
}


/// The 6x6 block grid embedded in the bottom-left corner of the board.
pub open spec fn spec_grid_of_board(b: Seq<Option<ProblemTile>>) -> Seq<Option<Block>> {
    Seq::new(
        36,
        |i: int|
            match b[board_idx(i % 6, 6 + i / 6)] {
                Some(ProblemTile::Block(blk)) => Some(blk),
                _ => None,
            },
    )
}

/// The initial game state a puzzle compiles to: the thrower in the bottom
/// lane, the embedded block grid, the puzzle's held block and move budget.
pub open spec fn spec_initial(p: ProbV) -> PosV {
    PosV {
        hero_row: MoveSrc::Row11,
        grid: spec_grid_of_board(p.board),
        held: p.held,
        remain: p.remain,
    }
}

/// Column of the first tile met scanning board row `row` from column `col`
/// leftward, if any.
pub open spec fn spec_row_hit_from(b: Seq<Option<ProblemTile>>, row: int, col: int) -> Option<int>
    decreases col + 1,
{
    if col < 0 {
        None
    } else if b[board_idx(col, row)] is Some {
        Some(col)
    } else {
        spec_row_hit_from(b, row, col - 1)
    }
}

/// Whether board column `col` holds a block at `from_row` or below.
pub open spec fn spec_block_below(b: Seq<Option<ProblemTile>>, col: int, from_row: int) -> bool {
    exists|r: int|
        from_row <= r < 12 && (#[trigger] b[board_idx(col, r)]) matches Some(ProblemTile::Block(_))
}

/// The lane with numeric identifier `i`.
pub open spec fn lane_src(i: int) -> MoveSrc {
    if i == 0 {
        MoveSrc::Row0
    } else if i == 1 {
        MoveSrc::Row1
    } else if i == 2 {
        MoveSrc::Row2
    } else if i == 3 {
        MoveSrc::Row3
    } else if i == 4 {
        MoveSrc::Row4
    } else if i == 5 {
        MoveSrc::Row5
    } else if i == 6 {
        MoveSrc::Row6
    } else if i == 7 {
        MoveSrc::Row7
    } else if i == 8 {
        MoveSrc::Row8
    } else if i == 9 {
        MoveSrc::Row9
    } else if i == 10 {
        MoveSrc::Row10
    } else {
        MoveSrc::Row11
    }
}

/// The block-field row with numeric identifier `i`.
pub open spec fn row_of_inner(i: int) -> BlocksRow {
    if i == 1 {
        BlocksRow::Row1
    } else if i == 2 {
        BlocksRow::Row2
    } else if i == 3 {
        BlocksRow::Row3
    } else if i == 4 {
        BlocksRow::Row4
    } else if i == 5 {
        BlocksRow::Row5
    } else {
        BlocksRow::Row6
    }
}

/// The block-field column with numeric identifier `i`.
pub open spec fn col_of_inner(i: int) -> BlocksCol {
    if i == 1 {
        BlocksCol::ColA
    } else if i == 2 {
        BlocksCol::ColB
    } else if i == 3 {
        BlocksCol::ColC
    } else if i == 4 {
        BlocksCol::ColD
    } else if i == 5 {
        BlocksCol::ColE
    } else {
        BlocksCol::ColF
    }
}

/// Classification of one lane, fixed for the whole search. A block thrown
/// from `src` flies leftward along its board row. If it meets nothing, it
/// falls down column `A`. If the first tile it meets is a block, the lane
/// throws horizontally into the level block-field row. If it is a wall or
/// pipe, the throw stops one column short and falls: if a block lies below
/// in that column, the lane drops vertically into it, otherwise the lane
/// yields no move at all.
pub open spec fn spec_lane_move(b: Seq<Option<ProblemTile>>, src: MoveSrc) -> Option<Move> {
    let s = src.spec_inner();
    match spec_row_hit_from(b, s, 7) {
        None => Some(Move { src, dst: MoveDst::Vertical(BlocksCol::ColA) }),
        Some(c) => match b[board_idx(c, s)] {
            Some(ProblemTile::Block(_)) => Some(
                Move { src, dst: MoveDst::Horizontal(row_of_inner(s - 5)) },
            ),
            _ => if c + 1 < 8 && spec_block_below(b, c + 1, s) {
                Some(Move { src, dst: MoveDst::Vertical(col_of_inner(c + 2)) })
            } else {
                None
            },
        },
    }
}

/// The compiled move list for lanes `lane` down to 0, in that order.
pub open spec fn spec_moves_from(b: Seq<Option<ProblemTile>>, lane: int) -> Seq<Move>
    decreases lane + 1,
{
    if lane < 0 {
        Seq::empty()
    } else {
        (match spec_lane_move(b, lane_src(lane)) {
            None => Seq::empty(),
            Some(m) => seq![m],
        }) + spec_moves_from(b, lane - 1)
    }
}

/// The compiled move list of a puzzle: lanes 11 down to 0.
pub open spec fn spec_moves(b: Seq<Option<ProblemTile>>) -> Seq<Move> {
    spec_moves_from(b, 11)
}

/// Positions reported by the row scan are in range and hold a tile.
proof fn lemma_row_hit_props(b: Seq<Option<ProblemTile>>, row: int, col: int)
    ensures
        match spec_row_hit_from(b, row, col) {
            Some(c) => 0 <= c <= col && b[board_idx(c, row)] is Some,
            None => true,
        },
    decreases col + 1,
{
    if col >= 0 && !(b[board_idx(col, row)] is Some) {
        lemma_row_hit_props(b, row, col - 1);
    }
}

/// On a rule-abiding board every compiled move has the compiled shape and
/// is released from its own lane.
pub proof fn lemma_lane_move_shape(b: Seq<Option<ProblemTile>>, src: MoveSrc)
    requires
        b.len() == 96,
        problem_ok(b),
    ensures
        match spec_lane_move(b, src) {
            None => true,
            Some(m) => m.spec_shape_ok() && m.src == src,
        },
{
    let s = src.spec_inner();
    assert(0 <= s <= 11);
    lemma_row_hit_props(b, s, 7);
    match spec_row_hit_from(b, s, 7) {
        None => {},
        Some(c) => {
            match b[board_idx(c, s)] {
                Some(ProblemTile::Block(_)) => {
                    assert(spec_check_cell(b, c, s) is None);
                    assert(in_blocks_area(c, s));
                    assert(row_of_inner(s - 5).spec_inner() == s - 5);
                },
                _ => {
                    if c + 1 < 8 && spec_block_below(b, c + 1, s) {
                        let rr = choose|r: int|
                            s <= r < 12 && (#[trigger] b[board_idx(c + 1, r)]) matches Some(
                                ProblemTile::Block(_),
                            );
                        assert(spec_check_cell(b, c + 1, rr) is None);
                        assert(in_blocks_area(c + 1, rr));
                        assert(spec_check_cell(b, c, s) is None);
                        assert(!in_blocks_area(c, s));
                        assert(s <= 5);
                    }
                },
            }
        },
    }
}

/// Every move of the compiled list has the compiled shape.
pub proof fn lemma_moves_shape(b: Seq<Option<ProblemTile>>, lane: int)
    requires
        b.len() == 96,
        problem_ok(b),
        lane <= 11,
    ensures
        forall|i: int|
            0 <= i < spec_moves_from(b, lane).len() ==> (#[trigger] spec_moves_from(b, lane)[i])
                .spec_shape_ok(),
    decreases lane + 1,
{
    if lane >= 0 {
        lemma_moves_shape(b, lane - 1);
        lemma_lane_move_shape(b, lane_src(lane));
        let rest = spec_moves_from(b, lane - 1);
        let whole = spec_moves_from(b, lane);
        match spec_lane_move(b, lane_src(lane)) {
            None => {
                assert(whole =~= rest);
            },
            Some(m) => {
                assert(whole =~= seq![m] + rest);
                assert(whole[0] == m);
                assert(forall|i: int| 1 <= i < whole.len() ==> whole[i] == rest[i - 1]);
            },
        }
    }
}

/// Column of the first tile met scanning board row `row` from the right.
fn row_hit(board: &ProblemBoard, row: usize) -> (r: Option<usize>)
    requires
        board.wf(),
        row < 12,
    ensures
        match r {
            None => spec_row_hit_from(board@, row as int, 7) is None,
            Some(c) => c < 8 && spec_row_hit_from(board@, row as int, 7) == Some(c as int),
        },
{
    let mut c: usize = 8;
    while c >= 1
        invariant
            0 <= c <= 8,
            board.wf(),
            row < 12,
            spec_row_hit_from(board@, row as int, 7) == spec_row_hit_from(
                board@,
                row as int,
                c - 1,
            ),
        decreases c,
    {
        c -= 1;
        if board.get(c, row).is_some() {
            return Some(c);
        }
    }
    None
}

/// Whether board column `col` holds a block at `from_row` or below.
fn block_below(board: &ProblemBoard, col: usize, from_row: usize) -> (r: bool)
    requires
        board.wf(),
        col < 8,
        from_row < 12,
    ensures
        r == spec_block_below(board@, col as int, from_row as int),
{
    let mut row = from_row;
    while row < 12
        invariant
            from_row <= row <= 12,
            board.wf(),
            col < 8,
            forall|r: int|
                from_row <= r < row ==> !((#[trigger] board@[board_idx(col as int, r)]) matches Some(
                    ProblemTile::Block(_),
                )),
        decreases 12 - row,
    {
        match board.get(col, row) {
            Some(t) => {
                if t.is_block() {
                    return true;
                }
            },
            None => {},
        }
        row += 1;
    }
    false
}

impl Problem {
    /// The fixed move of one lane, if the lane yields one.
    fn lane_move(&self, src: MoveSrc) -> (r: Option<Move>)
        requires
            self.wf(),
        ensures
            r == spec_lane_move(self@.board, src),
    {
        let s = src.to_index();
        match row_hit(&self.board, s) {
            None => Some(Move::new(src, MoveDst::Vertical(BLOCKS_COL_A))),
            Some(c) => {
                let t = self.board.get(c, s);
                match t {
                    Some(ProblemTile::Block(_)) => {
                        proof {
                            assert(spec_check_cell(self@.board, c as int, s as int) is None);
                            assert(in_blocks_area(c as int, s as int));
                        }
                        let brow = src.to_blocks_row().unwrap();
                        proof {
                            assert(row_of_inner(s as int - 5) == brow);
                        }
                        Some(Move::new(src, MoveDst::Horizontal(brow)))
                    },
                    _ => {
                        if c + 1 < 8 {
                            if block_below(&self.board, c + 1, s) {
                                proof {
                                    let r = choose|r: int|
                                        s <= r < 12 && (#[trigger] self@.board[board_idx(
                                            c + 1,
                                            r,
                                        )]) matches Some(ProblemTile::Block(_));
                                    assert(spec_check_cell(self@.board, c + 1, r) is None);
                                    assert(in_blocks_area(c + 1, r));
                                }
                                let bcol = BlocksCol::from_inner((c + 2) as u8).unwrap();
                                proof {
                                    assert(col_of_inner(c + 2) == bcol);
                                }
                                Some(Move::new(src, MoveDst::Vertical(bcol)))
                            } else {
                                None
                            }
                        } else {
                            None
                        }
                    },
                }
            },
        }
    }

    /// Compile the puzzle: transcribe the embedded 6x6 block area into a
    /// fresh game state, and classify each of the twelve lanes into its
    /// fixed move, lanes 11 down to 0. A pure function of the puzzle: both
    /// results are pinned to the puzzle value alone.
    pub fn to_position_and_moves(&self) -> (r: (Position, Vec<Move>))
        requires
            self.wf(),
        ensures
            r.0@ == spec_initial(self@),
            r.0.wf(),
            r.1@ == spec_moves(self@.board),
    {
        let ghost b = self@.board;
        let mut blocks = Blocks::new();
        let mut prow: usize = 6;
        while prow < 12
            invariant
                6 <= prow <= 12,
                self.wf(),
                b == self@.board,
                blocks.wf(),
                forall|c0: int, k0: int|
                    valid_coord(c0, k0) ==> blocks@[grid_idx(c0, k0)] == (if k0 < prow - 6 {
                        spec_grid_of_board(b)[grid_idx(c0, k0)]
                    } else {
                        None::<Block>
                    }),
            decreases 12 - prow,
        {
            let mut pcol: usize = 0;
            while pcol < 6
                invariant
                    6 <= prow < 12,
                    0 <= pcol <= 6,
                    self.wf(),
                    b == self@.board,
                    blocks.wf(),
                    forall|c0: int, k0: int|
                        valid_coord(c0, k0) ==> blocks@[grid_idx(c0, k0)] == (if k0 < prow - 6 || (
                        k0 == prow - 6 && c0 < pcol) {
                            spec_grid_of_board(b)[grid_idx(c0, k0)]
                        } else {
                            None::<Block>
                        }),
                decreases 6 - pcol,
            {
                let blk = match self.board.get(pcol, prow) {
                    Some(ProblemTile::Block(blk)) => Some(blk),
                    _ => None,
                };
                proof {
                    assert(spec_check_cell(b, pcol as int, prow as int) is None);
                    lemma_grid_idx_decomp(pcol as int, prow as int - 6);
                }
                let col = BlocksCol::from_inner((pcol + 1) as u8).unwrap();
                let row = BlocksRow::from_inner((prow - 5) as u8).unwrap();
                blocks.set(col, row, blk);
                pcol += 1;
            }
            prow += 1;
        }
        proof {
            assert forall|i: int| 0 <= i < 36 implies blocks@[i] == spec_grid_of_board(b)[i] by {
                crate::block::lemma_idx_to_coord(i);
                assert(blocks@[grid_idx(i % 6, i / 6)] == spec_grid_of_board(b)[grid_idx(
                    i % 6,
                    i / 6,
                )]);
            }
            assert(blocks@ =~= spec_grid_of_board(b));
        }

        let pos = Position::new(blocks, self.block_holding, self.move_remain);

        let mut moves: Vec<Move> = Vec::new();
        let mut li: usize = 0;
        while li < 12
            invariant
                0 <= li <= 12,
                self.wf(),
                b == self@.board,
                moves@ + spec_moves_from(b, 11 - li) == spec_moves(b),
            decreases 12 - li,
        {
            let src = MoveSrc::from_inner((11 - li) as u8).unwrap();
            proof {
                assert(lane_src(11 - li as int) == src);
            }
            match self.lane_move(src) {
                Some(mv) => {
                    proof {
                        assert(spec_moves_from(b, 11 - li as int) == seq![mv] + spec_moves_from(
                            b,
                            11 - li as int - 1,
                        ));
                        assert((moves@ + seq![mv]) + spec_moves_from(b, 11 - li as int - 1) =~= moves@
                            + (seq![mv] + spec_moves_from(b, 11 - li as int - 1)));
                    }
                    moves.push(mv);
                },
                None => {
                    proof {
                        assert(spec_moves_from(b, 11 - li as int) =~= spec_moves_from(
                            b,
                            11 - li as int - 1,
                        ));
                    }
                },
            }
            li += 1;
        }
        proof {
            assert(moves@ + spec_moves_from(b, -1) =~= moves@);
        }

        (pos, moves)
    }
}


/// The character that encodes one board tile.
pub open spec fn tile_char(t: Option<ProblemTile>) -> char {
    match t {
        None => '.',
        Some(ProblemTile::Block(b)) => block_char(Some(b)),
        Some(ProblemTile::Wall) => '#',
        Some(ProblemTile::Pipe) => '|',
    }
}

/// The board tile a character encodes, if any.
pub open spec fn char_tile(c: char) -> Option<Option<ProblemTile>> {
    if c == '.' {
        Some(None)
    } else if c == '1' {
        Some(Some(ProblemTile::Block(Block::Normal1)))
    } else if c == '2' {
        Some(Some(ProblemTile::Block(Block::Normal2)))
    } else if c == '3' {
        Some(Some(ProblemTile::Block(Block::Normal3)))
    } else if c == '4' {
        Some(Some(ProblemTile::Block(Block::Normal4)))
    } else if c == '5' {
        Some(Some(ProblemTile::Block(Block::Wild)))
    } else if c == '#' {
        Some(Some(ProblemTile::Wall))
    } else if c == '|' {
        Some(Some(ProblemTile::Pipe))
    } else {
        None
    }
}

/// Text of one board row, with its line ending.
pub open spec fn fmt_board_row(b: Seq<Option<ProblemTile>>, row: int) -> Seq<char> {
    Seq::new(8, |c: int| tile_char(b[board_idx(c, row)])) + seq!['\n']
}

/// Text of the first `r` board rows.
pub open spec fn fmt_board_upto(b: Seq<Option<ProblemTile>>, r: int) -> Seq<char>
    decreases r,
{
    if r <= 0 {
        Seq::empty()
    } else {
        fmt_board_upto(b, r - 1) + fmt_board_row(b, r - 1)
    }
}

/// The text encoding of a board: twelve lines of eight tile characters.
pub open spec fn spec_board_text(b: Seq<Option<ProblemTile>>) -> Seq<char> {
    fmt_board_upto(b, 12)
}

/// Tiles of one board row line read left to right.
pub open spec fn spec_parse_board_row(line: Seq<char>, li: int, j: int) -> Result<
    Seq<Option<ProblemTile>>,
    ParseError,
>
    decreases 8 - j,
{
    if j >= 8 {
        Ok(Seq::empty())
    } else {
        match char_tile(line[j]) {
            None => Err(ParseError::BadChar { line: li as usize, column: j as usize, ch: line[j] }),
            Some(t) => match spec_parse_board_row(line, li, j + 1) {
                Err(e) => Err(e),
                Ok(rest) => Ok(seq![t] + rest),
            },
        }
    }
}

/// Tiles of board row lines `i` and following, concatenated row-major.
pub open spec fn spec_parse_board_rows(lines: Seq<Seq<char>>, i: int) -> Result<
    Seq<Option<ProblemTile>>,
    ParseError,
>
    decreases lines.len() - i,
{
    if i >= lines.len() {
        Ok(Seq::empty())
    } else if lines[i].len() != 8 {
        Err(
            ParseError::WrongLineLength {
                line: i as usize,
                expected: 8,
                found: lines[i].len() as usize,
            },
        )
    } else {
        match spec_parse_board_row(lines[i], i, 0) {
            Err(e) => Err(e),
            Ok(tiles) => match spec_parse_board_rows(lines, i + 1) {
                Err(e) => Err(e),
                Ok(rest) => Ok(tiles + rest),
            },
        }
    }
}

/// Reading a board from its text: exactly twelve lines of exactly eight
/// tile characters.
pub open spec fn spec_parse_board(s: Seq<char>) -> Result<Seq<Option<ProblemTile>>, ParseError> {
    let lines = split_nl(s);
    if lines.len() != 12 {
        Err(ParseError::WrongLineCount { expected: 12, found: lines.len() as usize })
    } else {
        spec_parse_board_rows(lines, 0)
    }
}

/// One parsed board row line.
fn parse_board_row(line: &Vec<char>, li: usize) -> (r: Result<Vec<Option<ProblemTile>>, ParseError>)
    requires
        line@.len() == 8,
    ensures
        match r {
            Ok(tiles) => spec_parse_board_row(line@, li as int, 0) == Ok::<
                Seq<Option<ProblemTile>>,
                ParseError,
            >(tiles@) && tiles@.len() == 8,
            Err(e) => spec_parse_board_row(line@, li as int, 0) == Err::<
                Seq<Option<ProblemTile>>,
                ParseError,
            >(e),
        },
{
    let mut tiles: Vec<Option<ProblemTile>> = Vec::new();
    let mut j: usize = 0;
    while j < 8
        invariant
            0 <= j <= 8,
            line@.len() == 8,
            tiles@.len() == j,
            spec_parse_board_row(line@, li as int, 0) == (match spec_parse_board_row(
                line@,
                li as int,
                j as int,
            ) {
                Err(e) => Err::<Seq<Option<ProblemTile>>, ParseError>(e),
                Ok(rest) => Ok::<Seq<Option<ProblemTile>>, ParseError>(tiles@ + rest),
            }),
        decreases 8 - j,
    {
        let t = match ProblemBoard::char_to_tile(line[j]) {
            None => {
                return Err(ParseError::BadChar { line: li, column: j, ch: line[j] });
            },
            Some(t) => t,
        };
        proof {
            match spec_parse_board_row(line@, li as int, j as int + 1) {
                Err(e) => {},
                Ok(rest) => {
                    assert(tiles@ + (seq![t] + rest) =~= tiles@.push(t) + rest);
                },
            }
        }
        tiles.push(t);
        j += 1;
    }
    proof {
        assert(tiles@ + Seq::<Option<ProblemTile>>::empty() =~= tiles@);
    }
    Ok(tiles)
}

impl ProblemBoard {
    /// The character that encodes one tile.
    pub fn tile_to_char(tile: Option<ProblemTile>) -> (r: char)
        ensures
            r == tile_char(tile),
            spec_emit_char(r),
    {
        match tile {
            None => '.',
            Some(ProblemTile::Block(Block::Normal1)) => '1',
            Some(ProblemTile::Block(Block::Normal2)) => '2',
            Some(ProblemTile::Block(Block::Normal3)) => '3',
            Some(ProblemTile::Block(Block::Normal4)) => '4',
            Some(ProblemTile::Block(Block::Wild)) => '5',
            Some(ProblemTile::Wall) => '#',
            Some(ProblemTile::Pipe) => '|',
        }
    }

    /// The tile a character encodes, if any.
    pub fn char_to_tile(ch: char) -> (r: Option<Option<ProblemTile>>)
        ensures
            r == char_tile(ch),
    {
        match ch {
            '.' => Some(None),
            '1' => Some(Some(ProblemTile::Block(Block::Normal1))),
            '2' => Some(Some(ProblemTile::Block(Block::Normal2))),
            '3' => Some(Some(ProblemTile::Block(Block::Normal3))),
            '4' => Some(Some(ProblemTile::Block(Block::Normal4))),
            '5' => Some(Some(ProblemTile::Block(Block::Wild))),
            '#' => Some(Some(ProblemTile::Wall)),
            '|' => Some(Some(ProblemTile::Pipe)),
            _ => None,
        }
    }

    /// The text encoding of the board: twelve lines of eight tile
    /// characters.
    pub fn to_text(&self) -> (r: String)
        requires
            self.wf(),
        ensures
            r@ == spec_board_text(self@),
    {
        let mut out = String::new();
        let mut row: usize = 0;
        while row < 12
            invariant
                0 <= row <= 12,
                self.wf(),
                out@ == fmt_board_upto(self@, row as int),
            decreases 12 - row,
        {
            let mut c: usize = 0;
            while c < 8
                invariant
                    0 <= c <= 8,
                    0 <= row < 12,
                    self.wf(),
                    out@ == fmt_board_upto(self@, row as int) + Seq::new(
                        c as nat,
                        |cc: int| tile_char(self@[board_idx(cc, row as int)]),
                    ),
                decreases 8 - c,
            {
                let tile = self.tiles[8 * row + c];
                append_char(&mut out, ProblemBoard::tile_to_char(tile));
                proof {
                    assert(out@ =~= fmt_board_upto(self@, row as int) + Seq::new(
                        (c + 1) as nat,
                        |cc: int| tile_char(self@[board_idx(cc, row as int)]),
                    ));
                }
                c += 1;
            }
            append_char(&mut out, '\n');
            proof {
                assert(out@ =~= fmt_board_upto(self@, row as int + 1));
            }
            row += 1;
        }
        out
    }

    /// Read a board from its text encoding.
    pub fn parse(s: &str) -> (r: Result<ProblemBoard, ParseError>)
        ensures
            match r {
                Ok(b) => spec_parse_board(s@) == Ok::<Seq<Option<ProblemTile>>, ParseError>(b@)
                    && b.wf(),
                Err(e) => spec_parse_board(s@) == Err::<Seq<Option<ProblemTile>>, ParseError>(e),
            },
    {
        let chars = chars_of(s);
        proof {
            assert(chars@.skip(0) =~= s@);
        }
        let lines = split_lines_at(&chars, 0);
        let ghost linesv = views_of(lines@);
        if lines.len() != 12 {
            return Err(ParseError::WrongLineCount { expected: 12, found: lines.len() });
        }
        let mut tiles: Vec<Option<ProblemTile>> = Vec::new();
        let mut i: usize = 0;
        while i < 12
            invariant
                0 <= i <= 12,
                lines@.len() == 12,
                linesv == views_of(lines@),
                linesv.len() == 12,
                tiles@.len() == 8 * i,
                spec_parse_board_rows(linesv, 0) == (match spec_parse_board_rows(linesv, i as int) {
                    Err(e) => Err::<Seq<Option<ProblemTile>>, ParseError>(e),
                    Ok(rest) => Ok::<Seq<Option<ProblemTile>>, ParseError>(tiles@ + rest),
                }),
            decreases 12 - i,
        {
            let line = &lines[i];
            proof {
                assert(line@ == linesv[i as int]);
            }
            if line.len() != 8 {
                return Err(ParseError::WrongLineLength { line: i, expected: 8, found: line.len() });
            }
            let mut row = match parse_board_row(line, i) {
                Err(e) => {
                    return Err(e);
                },
                Ok(row) => row,
            };
            proof {
                match spec_parse_board_rows(linesv, i as int + 1) {
                    Err(e) => {},
                    Ok(rest) => {
                        assert(tiles@ + (row@ + rest) =~= (tiles@ + row@) + rest);
                    },
                }
            }
            tiles.append(&mut row);
            i += 1;
        }
        proof {
            assert(tiles@ + Seq::<Option<ProblemTile>>::empty() =~= tiles@);
        }
        Ok(ProblemBoard { tiles })
    }
}

/// The text encoding of a puzzle: one header line with the held block and
/// the move budget, then the board.
pub open spec fn spec_problem_text(p: ProbV) -> Seq<char> {
    dec_digits(p.held.spec_inner()) + seq![' '] + dec_digits(p.remain) + seq!['\n']
        + spec_board_text(p.board)
}

/// Reading a puzzle from its text: the header, the board, then the
/// ADVANCE-mode construction rules.
pub open spec fn spec_parse_problem(s: Seq<char>) -> Result<ProbV, ParseError> {
    match find_nl(s) {
        None => Err(ParseError::MissingHeader),
        Some(nl) => {
            let toks = ws_tokens(s.take(nl));
            if toks.len() != 2 {
                Err(ParseError::WrongTokenCount { expected: 2, found: toks.len() as usize })
            } else {
                match spec_parse_u8(toks[0], 0) {
                    Err(e) => Err(e),
                    Ok(held) => if !(1 <= held <= 5) {
                        Err(ParseError::OutOfRange { token: 0 })
                    } else {
                        match spec_parse_u8(toks[1], 1) {
                            Err(e) => Err(e),
                            Ok(remain) => match spec_parse_board(s.skip(nl + 1)) {
                                Err(e) => Err(e),
                                Ok(board) => match spec_problem_check(board) {
                                    Some(e) => Err(ParseError::Constraint(e)),
                                    None => Ok(
                                        ProbV { board, held: block_of_inner(held), remain },
                                    ),
                                },
                            },
                        }
                    },
                }
            }
        },
    }
}

impl Problem {
    /// The text encoding of this puzzle.
    pub fn to_text(&self) -> (r: String)
        requires
            self.board.wf(),
        ensures
            r@ == spec_problem_text(self@),
    {
        let mut out = String::new();
        append_dec(&mut out, self.block_holding.to_inner() as u64);
        append_char(&mut out, ' ');
        append_dec(&mut out, self.move_remain as u64);
        append_char(&mut out, '\n');
        let board = self.board.to_text();
        out.append(board.as_str());
        proof {
            assert(out@ =~= spec_problem_text(self@));
        }
        out
    }

    /// Read a puzzle from its text encoding, checking the ADVANCE-mode
    /// construction rules.
    pub fn parse(s: &str) -> (r: Result<Problem, ParseError>)
        ensures
            match r {
                Ok(p) => spec_parse_problem(s@) == Ok::<ProbV, ParseError>(p@) && p.wf(),
                Err(e) => spec_parse_problem(s@) == Err::<ProbV, ParseError>(e),
            },
    {
        let chars = chars_of(s);
        let nl = match crate::position::find_newline(&chars) {
            None => {
                return Err(ParseError::MissingHeader);
            },
            Some(nl) => nl,
        };
        let mut head: Vec<char> = Vec::new();
        let mut i: usize = 0;
        while i < nl
            invariant
                0 <= i <= nl,
                nl < chars@.len(),
                chars@ == s@,
                head@.len() == i,
                forall|j: int| 0 <= j < i ==> head@[j] == chars@[j],
            decreases nl - i,
        {
            head.push(chars[i]);
            i += 1;
        }
        proof {
            assert(head@ =~= s@.take(nl as int));
            assert(head@.skip(0) =~= head@);
        }
        let toks = tokens_at(&head, 0);
        let ghost toksv = ws_tokens(s@.take(nl as int));
        if toks.len() != 2 {
            return Err(ParseError::WrongTokenCount { expected: 2, found: toks.len() });
        }
        proof {
            assert(toks@[0]@ == toksv[0] && toks@[1]@ == toksv[1]);
        }
        let held = match parse_u8_token(&toks[0], 0) {
            Err(e) => {
                return Err(e);
            },
            Ok(v) => v,
        };
        let block_holding = match Block::from_inner(held) {
            None => {
                return Err(ParseError::OutOfRange { token: 0 });
            },
            Some(b) => b,
        };
        proof {
            assert(block_of_inner(held as int) == block_holding);
        }
        let move_remain = match parse_u8_token(&toks[1], 1) {
            Err(e) => {
                return Err(e);
            },
            Ok(v) => v,
        };
        let total = s.unicode_len();
        let rest = s.substring_char(nl + 1, total);
        proof {
            assert(rest@ =~= s@.skip(nl as int + 1));
        }
        let board = match ProblemBoard::parse(rest) {
            Err(e) => {
                return Err(e);
            },
            Ok(b) => b,
        };
        match Problem::new(board, block_holding, move_remain) {
            Err(e) => Err(ParseError::Constraint(e)),
            Ok(p) => Ok(p),
        }
    }
}


/// The tile characters of one board row line.
pub open spec fn board_row_cells(b: Seq<Option<ProblemTile>>, row: int) -> Seq<char> {
    Seq::new(8, |c: int| tile_char(b[board_idx(c, row)]))
}

/// Text of board rows `row` and following.
spec fn fmt_board_from(b: Seq<Option<ProblemTile>>, row: int) -> Seq<char>
    decreases 12 - row,
{
    if row < 0 || row >= 12 {
        Seq::empty()
    } else {
        fmt_board_row(b, row) + fmt_board_from(b, row + 1)
    }
}

/// The whole board text is the rows before `j` followed by the rows from
/// `j`.
proof fn lemma_fmt_board_split(b: Seq<Option<ProblemTile>>, j: int)
    requires
        0 <= j <= 12,
    ensures
        fmt_board_upto(b, j) + fmt_board_from(b, j) == spec_board_text(b),
    decreases 12 - j,
{
    if j == 12 {
        assert(fmt_board_upto(b, 12) + fmt_board_from(b, 12) =~= fmt_board_upto(b, 12));
    } else {
        lemma_fmt_board_split(b, j + 1);
        assert(fmt_board_upto(b, j) + (fmt_board_row(b, j) + fmt_board_from(b, j + 1)) =~= (
        fmt_board_upto(b, j) + fmt_board_row(b, j)) + fmt_board_from(b, j + 1));
    }
}

/// Splitting the text of the board rows from `row` yields one line per row.
proof fn lemma_split_board_from(b: Seq<Option<ProblemTile>>, row: int)
    requires
        0 <= row <= 12,
    ensures
        split_nl(fmt_board_from(b, row)).len() == 12 - row,
        forall|j: int|
            0 <= j < 12 - row ==> #[trigger] split_nl(fmt_board_from(b, row))[j]
                == board_row_cells(b, row + j),
    decreases 12 - row,
{
    if row == 12 {
        assert(split_nl(fmt_board_from(b, 12)).len() == 0);
    } else {
        lemma_split_board_from(b, row + 1);
        assert(forall|i: int| 0 <= i < 8 ==> #[trigger] board_row_cells(b, row)[i] != '\n');
        assert(fmt_board_from(b, row) =~= board_row_cells(b, row) + seq!['\n'] + fmt_board_from(
            b,
            row + 1,
        ));
        lemma_split_nl_concat(board_row_cells(b, row), fmt_board_from(b, row + 1));
    }
}

/// Reading one formatted board row back yields its tiles.
proof fn lemma_parse_fmt_board_row(b: Seq<Option<ProblemTile>>, row: int, j: int)
    requires
        b.len() == 96,
        0 <= row < 12,
        0 <= j <= 8,
    ensures
        spec_parse_board_row(board_row_cells(b, row), row, j) == Ok::<
            Seq<Option<ProblemTile>>,
            ParseError,
        >(Seq::new((8 - j) as nat, |c: int| b[board_idx(j + c, row)])),
    decreases 8 - j,
{
    let line = board_row_cells(b, row);
    if j >= 8 {
        assert(Seq::new(0, |c: int| b[board_idx(j + c, row)]) =~= Seq::<
            Option<ProblemTile>,
        >::empty());
    } else {
        let tile = b[board_idx(j, row)];
        assert(0 <= board_idx(j, row) < 96);
        assert(line[j] == tile_char(tile));
        assert(char_tile(tile_char(tile)) == Some(tile));
        lemma_parse_fmt_board_row(b, row, j + 1);
        assert(seq![tile] + Seq::new((7 - j) as nat, |c: int| b[board_idx(j + 1 + c, row)])
            =~= Seq::new((8 - j) as nat, |c: int| b[board_idx(j + c, row)]));
    }
}

/// Reading the formatted board rows from `i` back yields the tiles from
/// row `i` on.
proof fn lemma_parse_fmt_board_rows(b: Seq<Option<ProblemTile>>, lines: Seq<Seq<char>>, i: int)
    requires
        b.len() == 96,
        lines.len() == 12,
        0 <= i <= 12,
        forall|j: int| 0 <= j < 12 ==> #[trigger] lines[j] == board_row_cells(b, j),
    ensures
        spec_parse_board_rows(lines, i) == Ok::<Seq<Option<ProblemTile>>, ParseError>(
            b.skip(8 * i),
        ),
    decreases 12 - i,
{
    if i >= 12 {
        assert(b.skip(96) =~= Seq::<Option<ProblemTile>>::empty());
    } else {
        assert(lines[i].len() == 8);
        lemma_parse_fmt_board_row(b, i, 0);
        lemma_parse_fmt_board_rows(b, lines, i + 1);
        assert(Seq::new(8, |c: int| b[board_idx(0 + c, i)]) + b.skip(8 * (i + 1)) =~= b.skip(
            8 * i,
        ));
    }
}

/// Reading a board's text back yields the board: the board text encoding
/// round-trips.
pub proof fn lemma_board_round_trip(b: Seq<Option<ProblemTile>>)
    requires
        b.len() == 96,
    ensures
        spec_parse_board(spec_board_text(b)) == Ok::<Seq<Option<ProblemTile>>, ParseError>(b),
{
    lemma_fmt_board_split(b, 0);
    assert(fmt_board_upto(b, 0) + fmt_board_from(b, 0) =~= fmt_board_from(b, 0));
    assert(spec_board_text(b) == fmt_board_from(b, 0));
    lemma_split_board_from(b, 0);
    let lines = split_nl(spec_board_text(b));
    assert(forall|j: int| 0 <= j < 12 ==> #[trigger] lines[j] == board_row_cells(b, j));
    lemma_parse_fmt_board_rows(b, lines, 0);
    assert(b.skip(0) =~= b);
}

/// Tokenizing two space-separated tokens yields exactly those tokens.
proof fn lemma_two_tokens(t1: Seq<char>, t2: Seq<char>)
    requires
        t1.len() > 0,
        t2.len() > 0,
        forall|i: int| 0 <= i < t1.len() ==> !spec_is_ws(#[trigger] t1[i]),
        forall|i: int| 0 <= i < t2.len() ==> !spec_is_ws(#[trigger] t2[i]),
    ensures
        ws_tokens(t1 + seq![' '] + t2) == seq![t1, t2],
{
    lemma_ws_tokens_concat(t1, ' ', t2);
    lemma_ws_tokens_single(t2);
    assert(seq![t1] + seq![t2] =~= seq![t1, t2]);
}

/// Reading a well-formed puzzle's text back yields the puzzle: the problem
/// text encoding round-trips.
pub proof fn lemma_problem_round_trip(p: ProbV)
    requires
        p.board.len() == 96,
        problem_ok(p.board),
        0 <= p.remain <= 255,
    ensures
        spec_parse_problem(spec_problem_text(p)) == Ok::<ProbV, ParseError>(p),
{
    let b = p.held.spec_inner();
    let r = p.remain;
    let t1 = dec_digits(b);
    let t2 = dec_digits(r);
    let header = t1 + seq![' '] + t2;
    let text = spec_problem_text(p);
    lemma_dec_digits_are_digits(b);
    lemma_dec_digits_are_digits(r);
    lemma_digits_not_ws(t1);
    lemma_digits_not_ws(t2);
    assert(forall|i: int| 0 <= i < header.len() ==> #[trigger] header[i] != '\n');
    assert(text =~= header + seq!['\n'] + spec_board_text(p.board));
    lemma_find_nl_concat(header, spec_board_text(p.board));
    assert(text.take(header.len() as int) =~= header);
    assert(text.skip(header.len() as int + 1) =~= spec_board_text(p.board));
    lemma_two_tokens(t1, t2);
    lemma_parse_u8_of_digits(b, 0);
    lemma_parse_u8_of_digits(r, 1);
    assert(1 <= b <= 5);
    assert(block_of_inner(b) == p.held);
    lemma_board_round_trip(p.board);
    lemma_problem_check_iff(p.board);
}

} // verus!
