//! The live game state: the thrower's lane, the block field, the held
//! block, and the remaining move budget.

use vstd::prelude::*;

use crate::block::{
    block_of_inner, count_occ, grid_idx, lemma_blocks_round_trip, no_wild, spec_blocks_text,
    spec_move_hori, spec_move_vert, spec_parse_blocks, Block, Blocks,
};
use crate::error::ParseError;
use crate::problem::lane_src;
use crate::text::{
    append_char, append_dec, chars_of, dec_digits, find_nl, lemma_dec_digits_are_digits,
    lemma_digits_not_ws, lemma_find_nl_concat, lemma_parse_u8_of_digits, lemma_ws_tokens_concat,
    lemma_ws_tokens_single, parse_u8_token, spec_parse_u8, tokens_at, ws_tokens,
};
use crate::cost::{spec_hero_move_cost, spec_move_cost, spec_throw_distance, calc_hero_move_cost, calc_move_cost, Cost};
use crate::move_::{Move, MoveDst, MoveSrc, MOVE_SRC_ROW_11};

verus! {

/// Upper bound on the total cost of any single move: relocation plus throw.
pub const COST_MOVE_MAX: Cost = 64;

/// The mathematical value of a `Position`.
pub struct PosV {
    pub hero_row: MoveSrc,
    pub grid: Seq<Option<Block>>,
    pub held: Block,
    pub remain: int,
}

/// A game state: where the thrower stands, what the field holds, what block
/// is in hand, and how many moves are left.
#[derive(Clone, Debug)]
pub struct Position {
    pub hero_row: MoveSrc,
    pub blocks: Blocks,
    pub block_holding: Block,
    pub move_remain: u8,
}

impl View for Position {
    type V = PosV;

    open spec fn view(&self) -> PosV {
        PosV {
            hero_row: self.hero_row,
            grid: self.blocks@,
            held: self.block_holding,
            remain: self.move_remain as int,
        }
    }
}

impl PartialEq for Position {
    fn eq(&self, other: &Position) -> (r: bool) {
        self.hero_row == other.hero_row && self.blocks == other.blocks && self.block_holding
            == other.block_holding && self.move_remain == other.move_remain
    }
}

impl vstd::std_specs::cmp::PartialEqSpecImpl for Position {
    open spec fn obeys_eq_spec() -> bool {
        true
    }

    open spec fn eq_spec(&self, other: &Position) -> bool {
        self.hero_row == other.hero_row && self.blocks@ == other.blocks@ && self.block_holding
            == other.block_holding && self.move_remain == other.move_remain
    }
}

/// A well-formed game-state value: a well-formed field.
pub open spec fn posv_wf(p: PosV) -> bool {
    p.grid.len() == 36 && no_wild(p.grid) && 0 <= p.remain <= 255
}

/// Applying `mv` to game state `p`: `None` exactly when no move may be
/// applied (the budget is spent) or the throw has no effect on the field.
/// Otherwise the successor state together with the move's total cost and
/// its throw-only part.
pub open spec fn spec_apply(p: PosV, mv: Move) -> Option<(PosV, int, int)> {
    if p.remain <= 0 {
        None
    } else {
        let gm = match mv.dst {
            MoveDst::Horizontal(row) => spec_move_hori(p.grid, row.spec_inner() - 1, p.held),
            MoveDst::Vertical(col) => spec_move_vert(p.grid, col.spec_inner() - 1, p.held),
        };
        match gm {
            None => None,
            Some((g, b, l)) => {
                let hero = spec_hero_move_cost(p.hero_row.spec_inner(), mv.src.spec_inner());
                let throw = spec_move_cost(mv.src.spec_inner(), l.0, l.1);
                Some(
                    (
                        PosV { hero_row: mv.src, grid: g, held: b, remain: p.remain - 1 },
                        hero + throw,
                        throw,
                    ),
                )
            },
        }
    }
}

impl Position {
    /// A well-formed state: a well-formed field.
    pub open spec fn wf(&self) -> bool {
        self.blocks.wf()
    }

    /// A fresh state: the thrower starts in the bottom lane.
    pub fn new(blocks: Blocks, block_holding: Block, move_remain: u8) -> (r: Position)
        ensures
            r@.hero_row == MOVE_SRC_ROW_11,
            r@.grid == blocks@,
            r@.held == block_holding,
            r@.remain == move_remain as int,
            blocks.wf() ==> r.wf(),
    {
        Position { hero_row: MOVE_SRC_ROW_11, blocks, block_holding, move_remain }
    }

    pub fn hero_row(&self) -> (r: MoveSrc)
        ensures
            r == self@.hero_row,
    {
        self.hero_row
    }

    pub fn blocks(&self) -> (r: &Blocks)
        ensures
            r@ == self@.grid,
    {
        &self.blocks
    }

    pub fn block_holding(&self) -> (r: Block)
        ensures
            r == self@.held,
    {
        self.block_holding
    }

    pub fn move_remain(&self) -> (r: u8)
        ensures
            r as int == self@.remain,
    {
        self.move_remain
    }

    /// The number of blocks on the field.
    pub fn block_count(&self) -> (r: usize)
        ensures
            r as int == count_occ(self@.grid),
    {
        self.blocks.block_count()
    }

    /// Apply one move: relocate the thrower to the move's lane, resolve the
    /// throw, consume one move of the budget. `None` exactly when the throw
    /// has no effect; the state is unchanged and no budget is spent.
    /// Returns the successor state, the move's total cost, and the
    /// throw-only part of that cost.
    pub fn do_move(&self, mv: Move) -> (r: Option<(Position, Cost, Cost)>)
        requires
            self.wf(),
            self.move_remain > 0,
        ensures
            match r {
                None => spec_apply(self@, mv) is None,
                Some((p2, c, t)) => spec_apply(self@, mv) == Some((p2@, c as int, t as int))
                    && p2.wf() && t <= c <= COST_MOVE_MAX && count_occ(p2@.grid) < count_occ(
                    self@.grid,
                ),
            },
    {
        let cost_hero_move = calc_hero_move_cost(self.hero_row, mv.src());

        let hero_row = mv.src();
        let (blocks, block_holding, sq_last) = match match mv.dst() {
            MoveDst::Horizontal(row) => self.blocks.do_move_hori(row, self.block_holding),
            MoveDst::Vertical(col) => self.blocks.do_move_vert(col, self.block_holding),
        } {
            None => {
                return None;
            },
            Some(res) => res,
        };
        let move_remain = self.move_remain - 1;

        let cost_throw = calc_move_cost(mv.src(), sq_last);

        proof {
            let gm = match mv.dst {
                MoveDst::Horizontal(row) => spec_move_hori(
                    self@.grid,
                    row.spec_inner() - 1,
                    self@.held,
                ),
                MoveDst::Vertical(col) => spec_move_vert(
                    self@.grid,
                    col.spec_inner() - 1,
                    self@.held,
                ),
            };
            let t = gm->0;
            let l = t.2;
            crate::block::lemma_grid_idx_decomp(l.0, l.1);
        }

        let pos_nxt = Position { hero_row, blocks, block_holding, move_remain };

        let cost = cost_hero_move + cost_throw;

        Some((pos_nxt, cost, cost_throw))
    }
}


/// A move of the compiled shape never erases more blocks than its
/// throw-cost pays for: the scan comes to rest at least as many squares
/// from the throw's entry as it erased blocks past the first.
pub proof fn lemma_apply_erase_bound(p: PosV, mv: Move)
    requires
        posv_wf(p),
        mv.spec_shape_ok(),
    ensures
        spec_apply(p, mv) matches Some((p2, c, t)) ==> count_occ(p.grid) - count_occ(p2.grid) <= t
            && 0 <= t <= c,
{
    if p.remain > 0 {
        let src = mv.src.spec_inner();
        assert(0 <= src <= 11);
        assert(spec_hero_move_cost(p.hero_row.spec_inner(), src) >= 0);
        match mv.dst {
            MoveDst::Horizontal(row) => {
                let r0 = row.spec_inner() - 1;
                assert(0 <= r0 < 6);
                crate::block::lemma_path_hori(r0);
                let path = crate::block::path_hori(r0);
                crate::block::lemma_grid_move_erased(p.grid, path, p.held, true);
                match spec_move_hori(p.grid, r0, p.held) {
                    None => {},
                    Some((g, b, l)) => {
                        let m = choose|m: int|
                            0 <= m < path.len() && l == path[m] && count_occ(p.grid) - count_occ(g)
                                <= m + 1;
                        assert(src == r0 + 6);
                        if m < 6 {
                            assert(l == (5 - m, r0));
                            assert(spec_throw_distance(src, l.0, l.1) == m);
                        } else {
                            assert(l == (0int, r0 + m - 5));
                            assert(spec_throw_distance(src, l.0, l.1) == m);
                        }
                    },
                }
            },
            MoveDst::Vertical(col) => {
                let c0 = col.spec_inner() - 1;
                assert(0 <= c0 < 6);
                crate::block::lemma_path_vert(c0);
                let path = crate::block::path_vert(c0);
                crate::block::lemma_grid_move_erased(p.grid, path, p.held, false);
                match spec_move_vert(p.grid, c0, p.held) {
                    None => {},
                    Some((g, b, l)) => {
                        let m = choose|m: int|
                            0 <= m < path.len() && l == path[m] && count_occ(p.grid) - count_occ(g)
                                <= m + 1;
                        assert(l == (c0, m));
                        if c0 == 0 {
                            if m + 6 >= src {
                                assert(spec_throw_distance(src, l.0, l.1) == 5 + m + 6 - src >= m);
                            } else {
                                assert(m < src - 6 <= 5);
                                assert(spec_throw_distance(src, l.0, l.1) == 5 >= m);
                            }
                        } else {
                            assert(src <= 5);
                            assert(m + 6 >= src);
                            assert(spec_throw_distance(src, l.0, l.1) == (5 - c0) + m + 6 - src
                                >= m);
                        }
                    },
                }
            },
        }
    }
}

/// The text encoding of a game state: one header line with the thrower's
/// lane, the held block, and the remaining moves, then the block field.
pub open spec fn spec_position_text(p: PosV) -> Seq<char> {
    dec_digits(p.hero_row.spec_inner()) + seq![' '] + dec_digits(p.held.spec_inner()) + seq![' ']
        + dec_digits(p.remain) + seq!['\n'] + spec_blocks_text(p.grid)
}

/// Reading a game state from its text: header tokens in order, each
/// checked against its range, then the block field.
pub open spec fn spec_parse_position(s: Seq<char>) -> Result<PosV, ParseError> {
    match find_nl(s) {
        None => Err(ParseError::MissingHeader),
        Some(nl) => {
            let toks = ws_tokens(s.take(nl));
            if toks.len() != 3 {
                Err(ParseError::WrongTokenCount { expected: 3, found: toks.len() as usize })
            } else {
                match spec_parse_u8(toks[0], 0) {
                    Err(e) => Err(e),
                    Ok(hero) => if hero > 11 {
                        Err(ParseError::OutOfRange { token: 0 })
                    } else {
                        match spec_parse_u8(toks[1], 1) {
                            Err(e) => Err(e),
                            Ok(held) => if !(1 <= held <= 5) {
                                Err(ParseError::OutOfRange { token: 1 })
                            } else {
                                match spec_parse_u8(toks[2], 2) {
                                    Err(e) => Err(e),
                                    Ok(remain) => match spec_parse_blocks(s.skip(nl + 1)) {
                                        Err(e) => Err(e),
                                        Ok(grid) => Ok(
                                            PosV {
                                                hero_row: lane_src(hero),
                                                grid,
                                                held: block_of_inner(held),
                                                remain,
                                            },
                                        ),
                                    },
                                }
                            },
                        }
                    },
                }
            }
        },
    }
}

/// Position of the first line ending of a text, if any.
pub(crate) fn find_newline(chars: &Vec<char>) -> (r: Option<usize>)
    ensures
        match r {
            None => find_nl(chars@) is None,
            Some(i) => i < chars@.len() && find_nl(chars@) == Some(i as int),
        },
{
    let n = chars.len();
    proof {
        assert(chars@.skip(0) =~= chars@);
    }
    let mut i: usize = 0;
    while i < n
        invariant
            0 <= i <= n,
            n == chars@.len(),
            match find_nl(chars@.skip(i as int)) {
                None => find_nl(chars@) is None,
                Some(j) => find_nl(chars@) == Some(i + j),
            },
        decreases n - i,
    {
        proof {
            assert(chars@.skip(i as int)[0] == chars@[i as int]);
            assert(chars@.skip(i as int).skip(1) =~= chars@.skip(i as int + 1));
        }
        if chars[i] == '\n' {
            return Some(i);
        }
        i += 1;
    }
    proof {
        assert(chars@.skip(n as int) =~= Seq::<char>::empty());
    }
    None
}

impl Position {
    /// The text encoding of this state.
    pub fn to_text(&self) -> (r: String)
        requires
            self.wf(),
        ensures
            r@ == spec_position_text(self@),
    {
        let mut out = String::new();
        append_dec(&mut out, self.hero_row.to_inner() as u64);
        append_char(&mut out, ' ');
        append_dec(&mut out, self.block_holding.to_inner() as u64);
        append_char(&mut out, ' ');
        append_dec(&mut out, self.move_remain as u64);
        append_char(&mut out, '\n');
        let grid = self.blocks.to_text();
        out.append(grid.as_str());
        proof {
            assert(out@ =~= spec_position_text(self@));
        }
        out
    }

    /// Read a game state from its text encoding.
    pub fn parse(s: &str) -> (r: Result<Position, ParseError>)
        ensures
            match r {
                Ok(p) => spec_parse_position(s@) == Ok::<PosV, ParseError>(p@) && p.wf(),
                Err(e) => spec_parse_position(s@) == Err::<PosV, ParseError>(e),
            },
    {
        let chars = chars_of(s);
        let nl = match find_newline(&chars) {
            None => {
                return Err(ParseError::MissingHeader);
            },
            Some(nl) => nl,
        };
        let mut head: Vec<char> = Vec::new();
        let mut i: usize = 0;
        while i < nl
            invariant
                0 <= i <= nl,
                nl < chars@.len(),
                chars@ == s@,
                head@.len() == i,
                forall|j: int| 0 <= j < i ==> head@[j] == chars@[j],
            decreases nl - i,
        {
            head.push(chars[i]);
            i += 1;
        }
        proof {
            assert(head@ =~= s@.take(nl as int));
            assert(head@.skip(0) =~= head@);
        }
        let toks = tokens_at(&head, 0);
        let ghost toksv = ws_tokens(s@.take(nl as int));
        if toks.len() != 3 {
            return Err(ParseError::WrongTokenCount { expected: 3, found: toks.len() });
        }
        proof {
            assert(toks@[0]@ == toksv[0] && toks@[1]@ == toksv[1] && toks@[2]@ == toksv[2]);
        }
        let hero = match parse_u8_token(&toks[0], 0) {
            Err(e) => {
                return Err(e);
            },
            Ok(v) => v,
        };
        let hero_row = match MoveSrc::from_inner(hero) {
            None => {
                return Err(ParseError::OutOfRange { token: 0 });
            },
            Some(m) => m,
        };
        proof {
            assert(lane_src(hero as int) == hero_row);
        }
        let held = match parse_u8_token(&toks[1], 1) {
            Err(e) => {
                return Err(e);
            },
            Ok(v) => v,
        };
        let block_holding = match Block::from_inner(held) {
            None => {
                return Err(ParseError::OutOfRange { token: 1 });
            },
            Some(b) => b,
        };
        proof {
            assert(block_of_inner(held as int) == block_holding);
        }
        let move_remain = match parse_u8_token(&toks[2], 2) {
            Err(e) => {
                return Err(e);
            },
            Ok(v) => v,
        };
        let total = s.unicode_len();
        let rest = s.substring_char(nl + 1, total);
        proof {
            assert(rest@ =~= s@.skip(nl as int + 1));
        }
        let blocks = match Blocks::parse(rest) {
            Err(e) => {
                return Err(e);
            },
            Ok(b) => b,
        };
        Ok(Position { hero_row, blocks, block_holding, move_remain })
    }
}


/// Tokenizing three space-separated tokens yields exactly those tokens.
pub proof fn lemma_three_tokens(t1: Seq<char>, t2: Seq<char>, t3: Seq<char>)
    requires
        t1.len() > 0,
        t2.len() > 0,
        t3.len() > 0,
        forall|i: int| 0 <= i < t1.len() ==> !crate::text::spec_is_ws(#[trigger] t1[i]),
        forall|i: int| 0 <= i < t2.len() ==> !crate::text::spec_is_ws(#[trigger] t2[i]),
        forall|i: int| 0 <= i < t3.len() ==> !crate::text::spec_is_ws(#[trigger] t3[i]),
    ensures
        ws_tokens(t1 + seq![' '] + t2 + seq![' '] + t3) == seq![t1, t2, t3],
{
    let tail = t2 + seq![' '] + t3;
    assert(t1 + seq![' '] + t2 + seq![' '] + t3 =~= t1 + seq![' '] + tail);
    lemma_ws_tokens_concat(t1, ' ', tail);
    lemma_ws_tokens_concat(t2, ' ', t3);
    lemma_ws_tokens_single(t3);
    assert(seq![t1] + (seq![t2] + seq![t3]) =~= seq![t1, t2, t3]);
}

/// Reading a well-formed state's text back yields the state: the position
/// text encoding round-trips.
pub proof fn lemma_position_round_trip(p: PosV)
    requires
        posv_wf(p),
    ensures
        spec_parse_position(spec_position_text(p)) == Ok::<PosV, ParseError>(p),
{
    let h = p.hero_row.spec_inner();
    let b = p.held.spec_inner();
    let r = p.remain;
    let t1 = dec_digits(h);
    let t2 = dec_digits(b);
    let t3 = dec_digits(r);
    let header = t1 + seq![' '] + t2 + seq![' '] + t3;
    let text = spec_position_text(p);
    lemma_dec_digits_are_digits(h);
    lemma_dec_digits_are_digits(b);
    lemma_dec_digits_are_digits(r);
    lemma_digits_not_ws(t1);
    lemma_digits_not_ws(t2);
    lemma_digits_not_ws(t3);
    assert(forall|i: int| 0 <= i < header.len() ==> #[trigger] header[i] != '\n');
    assert(text =~= header + seq!['\n'] + spec_blocks_text(p.grid));
    lemma_find_nl_concat(header, spec_blocks_text(p.grid));
    assert(find_nl(text) == Some(header.len() as int));
    assert(text.take(header.len() as int) =~= header);
    assert(text.skip(header.len() as int + 1) =~= spec_blocks_text(p.grid));
    lemma_three_tokens(t1, t2, t3);
    lemma_parse_u8_of_digits(h, 0);
    lemma_parse_u8_of_digits(b, 1);
    lemma_parse_u8_of_digits(r, 2);
    assert(0 <= h <= 11);
    assert(1 <= b <= 5);
    assert(lane_src(h) == p.hero_row);
    assert(block_of_inner(b) == p.held);
    lemma_blocks_round_trip(p.grid);
}

} // verus!
