//! The solution type with its independent replay check, and the exhaustive
//! branch-and-bound search for the cheapest solving sequence.

use vstd::prelude::*;

use crate::block::count_occ;
use crate::cost::{Cost, COST_CLEAR_ERASE_BLOCK, COST_THROW_LAST_STAGE};
use crate::error::{ParseError, VerifyError};
use crate::problem::{lane_src, lemma_moves_shape};
use crate::text::{
    append_char, append_dec, chars_of, dec_digits, parse_u8_token, spec_parse_u8, tokens_at,
    views_of, ws_tokens,
};
use crate::move_::{Move, MoveDst, MoveSrc};
use crate::position::{posv_wf, spec_apply, PosV, Position, COST_MOVE_MAX};
use crate::problem::{spec_initial, spec_moves, ProbV, Problem};

verus! {

/// The lane sequence a list of moves releases from.
pub open spec fn srcs_of(ms: Seq<Move>) -> Seq<MoveSrc> {
    ms.map_values(|m: Move| m.src)
}

/// Index of the first move in `moves` released from `src`, at or after `j`.
pub open spec fn spec_find_index(moves: Seq<Move>, src: MoveSrc, j: int) -> Option<int>
    decreases moves.len() - j,
{
    if j < 0 || j >= moves.len() {
        None
    } else if moves[j].src == src {
        Some(j)
    } else {
        spec_find_index(moves, src, j + 1)
    }
}

/// The unique move of the fixed list a lane names, if any: replaying a
/// solution looks each lane up here.
pub open spec fn spec_find_move(moves: Seq<Move>, src: MoveSrc) -> Option<Move> {
    match spec_find_index(moves, src, 0) {
        None => None,
        Some(i) => Some(moves[i]),
    }
}

/// Replay of `srcs[i..]` from state `pos`, accumulating the plain summed
/// cost and the most recent throw-only cost. Fails with the named error of
/// the first step that cannot be taken.
pub open spec fn spec_replay_from(
    pos: PosV,
    moves: Seq<Move>,
    srcs: Seq<MoveSrc>,
    i: int,
    cost: int,
    lastthrow: int,
) -> Result<(PosV, int, int), VerifyError>
    decreases srcs.len() - i,
{
    if i < 0 || i >= srcs.len() {
        Ok((pos, cost, lastthrow))
    } else if pos.remain <= 0 {
        Err(VerifyError::OutOfMoves { index: i as usize })
    } else {
        match spec_find_move(moves, srcs[i]) {
            None => Err(VerifyError::UnknownLane { index: i as usize }),
            Some(mv) => match spec_apply(pos, mv) {
                None => Err(VerifyError::RejectedMove { index: i as usize }),
                Some((p2, c, t)) => spec_replay_from(p2, moves, srcs, i + 1, cost + c, t),
            },
        }
    }
}

/// No move of the fixed list has any effect on `pos`: the puzzle is stuck.
/// A state with no budget left is stuck by definition.
pub open spec fn spec_stuck(pos: PosV, moves: Seq<Move>) -> bool {
    forall|i: int| 0 <= i < moves.len() ==> spec_apply(pos, #[trigger] moves[i]) is None
}

/// Total cost of a finished run: in normal mode the summed move costs plus
/// the auto-clear charge per remaining block; on the last stage the final
/// throw's travel cost is replaced by the fixed last-stage constant and the
/// auto-clear charge is waived. A run of no moves at all costs its plain
/// sum (zero).
pub open spec fn spec_final_total(
    cost: int,
    lastthrow: int,
    nmoves: int,
    blocks_left: int,
    last_stage: bool,
) -> int {
    if last_stage {
        if nmoves == 0 {
            cost
        } else {
            cost - lastthrow + COST_THROW_LAST_STAGE as int
        }
    } else {
        cost + (COST_CLEAR_ERASE_BLOCK as int) * blocks_left
    }
}

/// Outcome of replaying the full lane sequence `srcs` against the initial
/// state `pos0` and the fixed move list `moves`: the total cost on success,
/// or the first of the named failures.
pub open spec fn spec_outcome(
    pos0: PosV,
    moves: Seq<Move>,
    srcs: Seq<MoveSrc>,
    last_stage: bool,
) -> Result<int, VerifyError> {
    match spec_replay_from(pos0, moves, srcs, 0, 0, 0) {
        Err(e) => Err(e),
        Ok((pos, cost, lastthrow)) => if !spec_stuck(pos, moves) {
            Err(VerifyError::NotStuck)
        } else if count_occ(pos.grid) > 3 {
            Err(VerifyError::NotSolved)
        } else {
            Ok(spec_final_total(cost, lastthrow, srcs.len() as int, count_occ(pos.grid), last_stage))
        },
    }
}

/// Outcome of replaying `srcs` against a problem's compiled initial state
/// and move list.
pub open spec fn spec_verify(problem: ProbV, srcs: Seq<MoveSrc>, last_stage: bool) -> Result<
    int,
    VerifyError,
> {
    spec_outcome(spec_initial(problem), spec_moves(problem.board), srcs, last_stage)
}

/// Whether `srcs` is a valid solving continuation from `pos`: every lane
/// names a move, every move applies, and the final state is stuck with at
/// most three blocks left.
pub open spec fn spec_can_finish(pos: PosV, moves: Seq<Move>, srcs: Seq<MoveSrc>) -> bool
    decreases srcs.len(),
{
    if srcs.len() == 0 {
        spec_stuck(pos, moves) && count_occ(pos.grid) <= 3
    } else {
        pos.remain > 0 && match spec_find_move(moves, srcs[0]) {
            None => false,
            Some(mv) => match spec_apply(pos, mv) {
                None => false,
                Some((p2, c, t)) => spec_can_finish(p2, moves, srcs.drop_first()),
            },
        }
    }
}

/// Total cost of finishing the run with the valid continuation `srcs` from
/// a state already reached with `applied` moves, plain cost `cost`, and
/// most recent throw cost `clt`. Meaningful only where the continuation is
/// valid.
pub open spec fn spec_finish_value(
    pos: PosV,
    moves: Seq<Move>,
    srcs: Seq<MoveSrc>,
    cost: int,
    clt: int,
    applied: int,
    ls: bool,
) -> int
    decreases srcs.len(),
{
    if srcs.len() == 0 {
        spec_final_total(cost, clt, applied, count_occ(pos.grid), ls)
    } else {
        match spec_find_move(moves, srcs[0]) {
            None => 0,
            Some(mv) => match spec_apply(pos, mv) {
                None => 0,
                Some((p2, c, t)) => spec_finish_value(
                    p2,
                    moves,
                    srcs.drop_first(),
                    cost + c,
                    t,
                    applied + 1,
                    ls,
                ),
            },
        }
    }
}

/// A replayed sequence reaches a solved terminal exactly when it is a valid
/// solving continuation of the state the replay starts from; and the total
/// it then reports is that continuation's finish value.
proof fn lemma_can_finish_iff(
    pos: PosV,
    moves: Seq<Move>,
    srcs: Seq<MoveSrc>,
    i: int,
    cost: int,
    clt: int,
    ls: bool,
)
    requires
        0 <= i <= srcs.len(),
    ensures
        (match spec_replay_from(pos, moves, srcs, i, cost, clt) {
            Ok((p, c, t)) => spec_stuck(p, moves) && count_occ(p.grid) <= 3,
            Err(_) => false,
        }) <==> spec_can_finish(pos, moves, srcs.skip(i)),
        spec_can_finish(pos, moves, srcs.skip(i)) ==> (match spec_replay_from(
            pos,
            moves,
            srcs,
            i,
            cost,
            clt,
        ) {
            Ok((p, c, t)) => spec_final_total(c, t, srcs.len() as int, count_occ(p.grid), ls)
                == spec_finish_value(pos, moves, srcs.skip(i), cost, clt, i, ls),
            Err(_) => false,
        }),
    decreases srcs.len() - i,
{
    if i >= srcs.len() {
        assert(srcs.skip(i).len() == 0);
    } else {
        assert(srcs.skip(i)[0] == srcs[i]);
        assert(srcs.skip(i).drop_first() =~= srcs.skip(i + 1));
        if pos.remain > 0 {
            match spec_find_move(moves, srcs[i]) {
                None => {},
                Some(mv) => {
                    match spec_apply(pos, mv) {
                        None => {},
                        Some((p2, c, t)) => {
                            lemma_can_finish_iff(p2, moves, srcs, i + 1, cost + c, t, ls);
                        },
                    }
                },
            }
        }
    }
}

/// The outcome of a full sequence is a success exactly when the sequence is
/// a valid solving continuation of the initial state, and its total is the
/// continuation's finish value.
pub proof fn lemma_outcome_iff_can_finish(
    pos0: PosV,
    moves: Seq<Move>,
    srcs: Seq<MoveSrc>,
    last_stage: bool,
)
    ensures
        (spec_outcome(pos0, moves, srcs, last_stage) is Ok) <==> spec_can_finish(pos0, moves, srcs),
        spec_can_finish(pos0, moves, srcs) ==> spec_outcome(pos0, moves, srcs, last_stage) == Ok::<
            int,
            VerifyError,
        >(spec_finish_value(pos0, moves, srcs, 0, 0, 0, last_stage)),
{
    lemma_can_finish_iff(pos0, moves, srcs, 0, 0, 0, last_stage);
    assert(srcs.skip(0) =~= srcs);
}

/// Applying a move keeps the state well formed and spends one move.
proof fn lemma_apply_wf(p: PosV, mv: Move)
    requires
        posv_wf(p),
    ensures
        spec_apply(p, mv) matches Some((p2, c, t)) ==> posv_wf(p2) && p2.remain == p.remain - 1,
{
    if p.remain > 0 {
        match mv.dst {
            MoveDst::Horizontal(row) => {
                let r0 = row.spec_inner() - 1;
                crate::block::lemma_path_hori(r0);
                crate::block::lemma_grid_move(
                    p.grid,
                    crate::block::path_hori(r0),
                    p.held,
                    true,
                );
            },
            MoveDst::Vertical(col) => {
                let c0 = col.spec_inner() - 1;
                crate::block::lemma_path_vert(c0);
                crate::block::lemma_grid_move(
                    p.grid,
                    crate::block::path_vert(c0),
                    p.held,
                    false,
                );
            },
        }
    }
}

/// The projected total of accepting the current state as terminal is a
/// lower bound on the total of every valid continuation: each move pays at
/// least the auto-clear charge of every block it erases, and on the last
/// stage the final throw's substitution only ever helps. This is what makes
/// the solver's pruning safe.
pub proof fn lemma_finish_value_lower(
    pos: PosV,
    moves: Seq<Move>,
    srcs: Seq<MoveSrc>,
    cost: int,
    clt: int,
    applied: int,
    ls: bool,
)
    requires
        posv_wf(pos),
        forall|i: int| 0 <= i < moves.len() ==> (#[trigger] moves[i]).spec_shape_ok(),
        spec_can_finish(pos, moves, srcs),
        0 <= clt,
        0 <= applied,
    ensures
        spec_final_total(cost, clt, applied, count_occ(pos.grid), ls) <= spec_finish_value(
            pos,
            moves,
            srcs,
            cost,
            clt,
            applied,
            ls,
        ),
    decreases srcs.len(),
{
    if srcs.len() > 0 {
        match spec_find_move(moves, srcs[0]) {
            None => {},
            Some(mv) => {
                lemma_find_index_props(moves, srcs[0], 0);
                assert(mv.spec_shape_ok());
                match spec_apply(pos, mv) {
                    None => {},
                    Some((p2, c, t)) => {
                        crate::position::lemma_apply_erase_bound(pos, mv);
                        lemma_apply_wf(pos, mv);
                        assert(count_occ(pos.grid) - count_occ(p2.grid) <= t);
                        assert(0 <= t <= c);
                        lemma_finish_value_lower(
                            p2,
                            moves,
                            srcs.drop_first(),
                            cost + c,
                            t,
                            applied + 1,
                            ls,
                        );
                        assert(spec_final_total(cost, clt, applied, count_occ(pos.grid), ls)
                            <= spec_final_total(
                            cost + c,
                            t,
                            applied + 1,
                            count_occ(p2.grid),
                            ls,
                        ));
                    },
                }
            },
        }
    }
}

/// Extending a successfully replayed prefix by one applicable lane replays
/// to the move's successor state, with its cost added.
proof fn lemma_replay_snoc(
    pos: PosV,
    moves: Seq<Move>,
    pre: Seq<MoveSrc>,
    s: MoveSrc,
    i: int,
    cost0: int,
    clt0: int,
    p: PosV,
    c: int,
    t: int,
    mv: Move,
    p2: PosV,
    c2: int,
    t2: int,
)
    requires
        0 <= i <= pre.len(),
        spec_replay_from(pos, moves, pre, i, cost0, clt0) == Ok::<(PosV, int, int), VerifyError>(
            (p, c, t),
        ),
        p.remain > 0,
        spec_find_move(moves, s) == Some(mv),
        spec_apply(p, mv) == Some((p2, c2, t2)),
    ensures
        spec_replay_from(pos, moves, pre.push(s), i, cost0, clt0) == Ok::<
            (PosV, int, int),
            VerifyError,
        >((p2, c + c2, t2)),
    decreases pre.len() - i,
{
    if i >= pre.len() {
        assert(pre.push(s)[i] == s);
    } else {
        assert(pre.push(s)[i] == pre[i]);
        match spec_find_move(moves, pre[i]) {
            None => {},
            Some(m0) => {
                match spec_apply(pos, m0) {
                    None => {},
                    Some((q, cq, tq)) => {
                        lemma_replay_snoc(
                            q,
                            moves,
                            pre,
                            s,
                            i + 1,
                            cost0 + cq,
                            tq,
                            p,
                            c,
                            t,
                            mv,
                            p2,
                            c2,
                            t2,
                        );
                    },
                }
            },
        }
    }
}


/// The move of the fixed list a lane names, if any: the first list entry
/// released from that lane.
fn find_move(moves: &Vec<Move>, src: MoveSrc) -> (r: Option<Move>)
    ensures
        r == spec_find_move(moves@, src),
{
    let n = moves.len();
    let mut j: usize = 0;
    while j < n
        invariant
            0 <= j <= n,
            n == moves@.len(),
            spec_find_index(moves@, src, 0) == spec_find_index(moves@, src, j as int),
        decreases n - j,
    {
        if moves[j].src() == src {
            return Some(moves[j]);
        }
        j += 1;
    }
    None
}

/// An exact copy of a move list.
fn copy_moves(v: &Vec<Move>) -> (r: Vec<Move>)
    ensures
        r@ == v@,
{
    let n = v.len();
    let mut r: Vec<Move> = Vec::new();
    let mut i: usize = 0;
    while i < n
        invariant
            0 <= i <= n,
            n == v@.len(),
            r@.len() == i,
            forall|j: int| 0 <= j < i ==> r@[j] == v@[j],
        decreases n - i,
    {
        r.push(v[i]);
        i += 1;
    }
    proof {
        assert(r@ =~= v@);
    }
    r
}

/// An ordered sequence of lanes, replayed strictly in order against a
/// problem's initial state: each entry applies the unique fixed move of
/// that lane.
#[derive(Debug)]
pub struct Solution(pub Vec<MoveSrc>);

impl View for Solution {
    type V = Seq<MoveSrc>;

    open spec fn view(&self) -> Seq<MoveSrc> {
        self.0@
    }
}

impl Solution {
    /// The lane sequence.
    pub fn moves(&self) -> (r: &[MoveSrc])
        ensures
            r@ == self@,
    {
        self.0.as_slice()
    }

    /// Independently replay this solution against `problem`, and return the
    /// total cost under the same cost rule the solver uses. Fails if a move
    /// comes with no budget left, names no move of the puzzle's fixed list,
    /// or has no effect; or if the final state still admits a move or holds
    /// more than three blocks.
    pub fn verify(&self, problem: &Problem, last_stage: bool) -> (r: Result<Cost, VerifyError>)
        requires
            problem.wf(),
        ensures
            match r {
                Ok(c) => spec_verify(problem@, self@, last_stage) == Ok::<int, VerifyError>(
                    c as int,
                ),
                Err(e) => spec_verify(problem@, self@, last_stage) == Err::<int, VerifyError>(e),
            },
    {
        let (mut pos, moves) = problem.to_position_and_moves();
        let ghost pos0 = pos@;
        let ghost r0 = pos@.remain;
        let mut cost_total: Cost = 0;
        let mut lastthrow: Cost = 0;

        let n = self.0.len();
        let mut i: usize = 0;
        while i < n
            invariant
                0 <= i <= n,
                n == self@.len(),
                pos.wf(),
                0 <= r0 <= 255,
                lastthrow <= cost_total,
                cost_total as int + COST_MOVE_MAX * pos@.remain <= COST_MOVE_MAX * r0,
                spec_replay_from(pos0, moves@, self@, 0, 0, 0) == spec_replay_from(
                    pos@,
                    moves@,
                    self@,
                    i as int,
                    cost_total as int,
                    lastthrow as int,
                ),
            decreases n - i,
        {
            let src = self.0[i];
            if pos.move_remain() == 0 {
                return Err(VerifyError::OutOfMoves { index: i });
            }
            let mv = match find_move(&moves, src) {
                None => {
                    return Err(VerifyError::UnknownLane { index: i });
                },
                Some(mv) => mv,
            };
            let (pos_nxt, cost_mv, cost_throw) = match pos.do_move(mv) {
                None => {
                    return Err(VerifyError::RejectedMove { index: i });
                },
                Some(step) => step,
            };
            pos = pos_nxt;
            cost_total = cost_total + cost_mv;
            lastthrow = cost_throw;
            i += 1;
        }

        let stuck = if pos.move_remain() == 0 {
            true
        } else {
            let m = moves.len();
            let mut j: usize = 0;
            let mut all_rejected = true;
            while j < m
                invariant
                    0 <= j <= m,
                    m == moves@.len(),
                    pos.wf(),
                    pos@.remain > 0,
                    all_rejected ==> forall|k: int|
                        0 <= k < j ==> spec_apply(pos@, #[trigger] moves@[k]) is None,
                    !all_rejected ==> !spec_stuck(pos@, moves@),
                decreases m - j,
            {
                if pos.do_move(moves[j]).is_some() {
                    all_rejected = false;
                }
                j += 1;
            }
            all_rejected
        };
        if !stuck {
            return Err(VerifyError::NotStuck);
        }

        let count = pos.block_count();
        proof {
            crate::block::lemma_count_occ_bounds(pos@.grid);
        }
        if count > 3 {
            return Err(VerifyError::NotSolved);
        }

        if last_stage {
            if n == 0 {
                Ok(cost_total)
            } else {
                Ok(cost_total - lastthrow + COST_THROW_LAST_STAGE)
            }
        } else {
            Ok(cost_total + COST_CLEAR_ERASE_BLOCK * (count as u64))
        }
    }
}


/// Positions reported by `spec_find_index` hold the lane searched for;
/// where none is reported, no entry holds it.
proof fn lemma_find_index_props(moves: Seq<Move>, src: MoveSrc, k: int)
    requires
        0 <= k,
    ensures
        match spec_find_index(moves, src, k) {
            Some(i) => k <= i < moves.len() && moves[i].src == src,
            None => forall|i: int| k <= i < moves.len() ==> (#[trigger] moves[i]).src != src,
        },
    decreases moves.len() - k,
{
    if k < moves.len() && moves[k].src != src {
        lemma_find_index_props(moves, src, k + 1);
    }
}

/// In a list of pairwise distinct lanes, the search finds exactly the entry
/// that holds the lane.
proof fn lemma_find_index_distinct(moves: Seq<Move>, j: int, k: int)
    requires
        0 <= k <= j < moves.len(),
        forall|a: int, b: int|
            0 <= a < b < moves.len() ==> (#[trigger] moves[a]).src != (#[trigger] moves[b]).src,
    ensures
        spec_find_index(moves, moves[j].src, k) == Some(j),
    decreases j - k,
{
    if k < j {
        assert(moves[k].src != moves[j].src);
        lemma_find_index_distinct(moves, j, k + 1);
    }
}

/// The lane sequence of a move list with one move appended.
proof fn lemma_srcs_of_push(ms: Seq<Move>, m: Move)
    ensures
        srcs_of(ms.push(m)) =~= srcs_of(ms).push(m.src),
{
}

/// The compiled move list releases from strictly descending lanes, so its
/// lanes are pairwise distinct.
pub proof fn lemma_moves_from_descending(b: Seq<Option<crate::problem::ProblemTile>>, lane: int)
    requires
        lane <= 11,
    ensures
        forall|i: int|
            0 <= i < crate::problem::spec_moves_from(b, lane).len()
                ==> (#[trigger] crate::problem::spec_moves_from(b, lane)[i]).src.spec_inner()
                <= lane,
        forall|i: int, j: int|
            0 <= i < j < crate::problem::spec_moves_from(b, lane).len()
                ==> (#[trigger] crate::problem::spec_moves_from(b, lane)[i]).src.spec_inner() > (
            #[trigger] crate::problem::spec_moves_from(b, lane)[j]).src.spec_inner(),
    decreases lane + 1,
{
    if lane >= 0 {
        lemma_moves_from_descending(b, lane - 1);
        let rest = crate::problem::spec_moves_from(b, lane - 1);
        let whole = crate::problem::spec_moves_from(b, lane);
        match crate::problem::spec_lane_move(b, crate::problem::lane_src(lane)) {
            None => {
                assert(whole =~= rest);
            },
            Some(m) => {
                assert(whole =~= seq![m] + rest);
                assert(whole[0] == m);
                assert(m.src == crate::problem::lane_src(lane));
                assert(m.src.spec_inner() == lane);
                assert(forall|i: int| 1 <= i < whole.len() ==> whole[i] == rest[i - 1]);
            },
        }
    }
}

/// Branch-and-bound search state: the cheapest solution found so far with
/// its cost, and the path of moves on the current branch.
#[derive(Debug)]
struct Solver {
    best_solution: Option<Vec<Move>>,
    best_cost: Cost,
    cur_solution: Vec<Move>,
    last_stage: bool,
}

impl Solver {
    /// What the search keeps true of the incumbent: no solution yet and an
    /// infinite bound, or a recorded path whose replay against the initial
    /// state yields exactly the recorded cost.
    spec fn inv(self, pos0: PosV, movesv: Seq<Move>) -> bool {
        match self.best_solution {
            None => self.best_cost == u64::MAX,
            Some(sol) => self.best_cost < u64::MAX && spec_outcome(
                pos0,
                movesv,
                srcs_of(sol@),
                self.last_stage,
            ) == Ok::<int, VerifyError>(self.best_cost as int),
        }
    }

    fn new(last_stage: bool) -> (r: Solver)
        ensures
            r.best_solution is None,
            r.best_cost == u64::MAX,
            r.cur_solution@.len() == 0,
            r.last_stage == last_stage,
    {
        Solver { best_solution: None, best_cost: u64::MAX, cur_solution: Vec::new(), last_stage }
    }

    /// Explore every ordering of applicable moves from `pos`, recording a
    /// solved terminal whenever its projected total beats the incumbent,
    /// and pruning any branch whose projected total cannot. On return the
    /// incumbent is no worse than before; if it is still absent, no
    /// continuation from `pos` solves the puzzle.
    fn solve(
        &mut self,
        moves: &Vec<Move>,
        pos: Position,
        cost: Cost,
        cost_last_throw: Cost,
        Ghost(pos0): Ghost<PosV>,
    )
        requires
            pos.wf(),
            old(self).inv(pos0, moves@),
            spec_replay_from(pos0, moves@, srcs_of(old(self).cur_solution@), 0, 0, 0) == Ok::<
                (PosV, int, int),
                VerifyError,
            >((pos@, cost as int, cost_last_throw as int)),
            cost_last_throw <= cost,
            cost as int + COST_MOVE_MAX * pos@.remain <= COST_MOVE_MAX * 255,
            forall|a: int, b: int|
                0 <= a < b < moves@.len() ==> (#[trigger] moves@[a]).src != (
                #[trigger] moves@[b]).src,
            forall|i: int| 0 <= i < moves@.len() ==> (#[trigger] moves@[i]).spec_shape_ok(),
        ensures
            final(self).last_stage == old(self).last_stage,
            final(self).cur_solution@ == old(self).cur_solution@,
            final(self).inv(pos0, moves@),
            final(self).best_cost <= old(self).best_cost,
            old(self).best_solution is Some ==> final(self).best_solution is Some,
            (old(self).best_solution is None && final(self).best_solution is None) ==> forall|
                srcs: Seq<MoveSrc>,
            | !spec_can_finish(pos@, moves@, srcs),
            forall|srcs: Seq<MoveSrc>|
                (#[trigger] spec_can_finish(pos@, moves@, srcs)) ==> final(self).best_cost as int
                    <= spec_finish_value(
                    pos@,
                    moves@,
                    srcs,
                    cost as int,
                    cost_last_throw as int,
                    old(self).cur_solution@.len() as int,
                    old(self).last_stage,
                ),
        decreases pos@.remain,
    {
        let ghost ls = self.last_stage;
        let ghost cur0 = self.cur_solution@;

        let count = pos.block_count();
        proof {
            crate::block::lemma_count_occ_bounds(pos@.grid);
        }
        let cost_total: Cost = if self.last_stage {
            if self.cur_solution.len() == 0 {
                cost
            } else {
                cost - cost_last_throw + COST_THROW_LAST_STAGE
            }
        } else {
            cost + COST_CLEAR_ERASE_BLOCK * (count as u64)
        };
        let ghost proj = spec_final_total(
            cost as int,
            cost_last_throw as int,
            cur0.len() as int,
            count as int,
            ls,
        );
        proof {
            assert(cost_total as int == proj);
            assert(cost_total < u64::MAX);
        }

        if cost_total >= self.best_cost {
            proof {
                assert(self.best_cost < u64::MAX);
                assert(self.best_solution is Some);
                assert forall|srcs: Seq<MoveSrc>|
                    #[trigger] spec_can_finish(pos@, moves@, srcs) implies self.best_cost as int
                    <= spec_finish_value(
                    pos@,
                    moves@,
                    srcs,
                    cost as int,
                    cost_last_throw as int,
                    cur0.len() as int,
                    ls,
                ) by {
                    lemma_finish_value_lower(
                        pos@,
                        moves@,
                        srcs,
                        cost as int,
                        cost_last_throw as int,
                        cur0.len() as int,
                        ls,
                    );
                }
            }
            return;
        }

        let mut has_move = false;
        if pos.move_remain() > 0 {
            let n = moves.len();
            let mut j: usize = 0;
            while j < n
                invariant
                    0 <= j <= n,
                    n == moves@.len(),
                    pos.wf(),
                    pos@.remain > 0,
                    self.last_stage == ls,
                    self.cur_solution@ == cur0,
                    self.inv(pos0, moves@),
                    self.best_cost <= old(self).best_cost,
                    old(self).best_solution is Some ==> self.best_solution is Some,
                    !has_move ==> self.best_solution == old(self).best_solution
                        && self.best_cost == old(self).best_cost,
                    !has_move ==> forall|k: int|
                        0 <= k < j ==> spec_apply(pos@, #[trigger] moves@[k]) is None,
                    has_move ==> exists|k: int|
                        0 <= k < n && spec_apply(pos@, #[trigger] moves@[k]) is Some,
                    (old(self).best_solution is None && self.best_solution is None) ==> forall|
                        srcs: Seq<MoveSrc>,
                    |
                        (srcs.len() > 0 && (match spec_find_index(moves@, srcs[0], 0) {
                            Some(ji) => 0 <= ji < j,
                            None => false,
                        })) ==> !(#[trigger] spec_can_finish(pos@, moves@, srcs)),
                    forall|srcs: Seq<MoveSrc>|
                        (srcs.len() > 0 && (match spec_find_index(moves@, srcs[0], 0) {
                            Some(ji) => 0 <= ji < j,
                            None => false,
                        }) && (#[trigger] spec_can_finish(pos@, moves@, srcs)))
                            ==> self.best_cost as int <= spec_finish_value(
                            pos@,
                            moves@,
                            srcs,
                            cost as int,
                            cost_last_throw as int,
                            cur0.len() as int,
                            ls,
                        ),
                decreases n - j,
            {
                let mv = moves[j];
                match pos.do_move(mv) {
                    None => {
                        proof {
                            assert forall|srcs: Seq<MoveSrc>|
                                (srcs.len() > 0 && (match spec_find_index(moves@, srcs[0], 0) {
                                    Some(ji) => ji == j,
                                    None => false,
                                })) implies !spec_can_finish(pos@, moves@, srcs) by {
                                lemma_find_index_props(moves@, srcs[0], 0);
                                assert(spec_find_move(moves@, srcs[0]) == Some(mv));
                            }
                        }
                    },
                    Some((pos_nxt, cost_mv, cost_throw)) => {
                        has_move = true;
                        let ghost entry_best = self.best_solution;
                        self.cur_solution.push(mv);
                        proof {
                            lemma_find_index_distinct(moves@, j as int, 0);
                            lemma_srcs_of_push(cur0, mv);
                            lemma_replay_snoc(
                                pos0,
                                moves@,
                                srcs_of(cur0),
                                mv.src,
                                0,
                                0,
                                0,
                                pos@,
                                cost as int,
                                cost_last_throw as int,
                                mv,
                                pos_nxt@,
                                cost_mv as int,
                                cost_throw as int,
                            );
                        }
                        self.solve(moves, pos_nxt, cost + cost_mv, cost_throw, Ghost(pos0));
                        self.cur_solution.pop();
                        proof {
                            assert(self.cur_solution@ =~= cur0);
                            assert forall|srcs: Seq<MoveSrc>|
                                (srcs.len() > 0 && (match spec_find_index(moves@, srcs[0], 0) {
                                    Some(ji) => ji == j,
                                    None => false,
                                }) && spec_can_finish(
                                    pos@,
                                    moves@,
                                    srcs,
                                )) implies self.best_cost as int <= spec_finish_value(
                                pos@,
                                moves@,
                                srcs,
                                cost as int,
                                cost_last_throw as int,
                                cur0.len() as int,
                                ls,
                            ) by {
                                lemma_find_index_props(moves@, srcs[0], 0);
                                assert(spec_find_move(moves@, srcs[0]) == Some(mv));
                                assert(spec_can_finish(pos_nxt@, moves@, srcs.drop_first()));
                                assert(self.best_cost as int <= spec_finish_value(
                                    pos_nxt@,
                                    moves@,
                                    srcs.drop_first(),
                                    cost as int + cost_mv as int,
                                    cost_throw as int,
                                    cur0.len() as int + 1,
                                    ls,
                                ));
                            }
                            if self.best_solution is None {
                                assert(entry_best is None);
                                assert forall|srcs: Seq<MoveSrc>|
                                    (srcs.len() > 0 && (match spec_find_index(
                                        moves@,
                                        srcs[0],
                                        0,
                                    ) {
                                        Some(ji) => ji == j,
                                        None => false,
                                    })) implies !spec_can_finish(pos@, moves@, srcs) by {
                                    lemma_find_index_props(moves@, srcs[0], 0);
                                    assert(spec_find_move(moves@, srcs[0]) == Some(mv));
                                    assert(!spec_can_finish(pos_nxt@, moves@, srcs.drop_first()));
                                }
                            }
                        }
                    },
                }
                j += 1;
            }
        }

        if !has_move && count <= 3 {
            let sol = copy_moves(&self.cur_solution);
            proof {
                if pos@.remain > 0 {
                    assert(spec_stuck(pos@, moves@));
                } else {
                    assert forall|i: int| 0 <= i < moves@.len() implies spec_apply(
                        pos@,
                        #[trigger] moves@[i],
                    ) is None by {}
                }
                assert(spec_outcome(pos0, moves@, srcs_of(cur0), ls) == Ok::<int, VerifyError>(
                    proj,
                ));
            }
            self.best_solution = Some(sol);
            self.best_cost = cost_total;
        }

        proof {
            assert forall|srcs: Seq<MoveSrc>|
                #[trigger] spec_can_finish(pos@, moves@, srcs) implies self.best_cost as int
                <= spec_finish_value(
                pos@,
                moves@,
                srcs,
                cost as int,
                cost_last_throw as int,
                cur0.len() as int,
                ls,
            ) by {
                if srcs.len() == 0 {
                    assert(spec_stuck(pos@, moves@));
                    assert(!has_move);
                    assert(count_occ(pos@.grid) <= 3);
                    assert(self.best_cost == cost_total);
                } else {
                    if pos@.remain > 0 {
                        lemma_find_index_props(moves@, srcs[0], 0);
                    }
                }
            }
            if old(self).best_solution is None && self.best_solution is None {
                assert forall|srcs: Seq<MoveSrc>| !spec_can_finish(pos@, moves@, srcs) by {
                    if srcs.len() == 0 {
                        if !has_move {
                            assert(count_occ(pos@.grid) > 3);
                        } else {
                            let k = choose|k: int|
                                0 <= k < moves@.len() && spec_apply(
                                    pos@,
                                    #[trigger] moves@[k],
                                ) is Some;
                            assert(!spec_stuck(pos@, moves@));
                        }
                    } else {
                        if pos@.remain > 0 {
                            lemma_find_index_props(moves@, srcs[0], 0);
                            match spec_find_index(moves@, srcs[0], 0) {
                                None => {},
                                Some(ji) => {
                                    assert(ji < moves@.len());
                                },
                            }
                        }
                    }
                }
            }
        }
    }
}

/// Search every legal move ordering of `problem` for the cheapest solving
/// sequence. Returns the sequence and its total cost, which its own replay
/// check confirms; or `None` exactly when no sequence at all solves the
/// puzzle.
pub fn solve_problem(problem: &Problem, last_stage: bool) -> (r: Option<(Solution, Cost)>)
    requires
        problem.wf(),
    ensures
        match r {
            Some((sol, c)) => spec_verify(problem@, sol@, last_stage) == Ok::<int, VerifyError>(
                c as int,
            ) && (forall|srcs: Seq<MoveSrc>|
                (#[trigger] spec_verify(problem@, srcs, last_stage)) is Ok ==> c as int
                    <= spec_verify(problem@, srcs, last_stage)->Ok_0),
            None => forall|srcs: Seq<MoveSrc>|
                (#[trigger] spec_verify(problem@, srcs, last_stage)) is Err,
        },
{
    let (pos, moves) = problem.to_position_and_moves();
    let ghost pos0 = pos@;
    proof {
        lemma_moves_from_descending(problem@.board, 11);
        lemma_moves_shape(problem@.board, 11);
        assert(srcs_of(Seq::<Move>::empty()) =~= Seq::<MoveSrc>::empty());
    }

    let mut solver = Solver::new(last_stage);
    solver.solve(&moves, pos, 0, 0, Ghost(pos0));

    let best = solver.best_solution;
    match best {
        None => {
            proof {
                assert forall|srcs: Seq<MoveSrc>|
                    (#[trigger] spec_verify(problem@, srcs, last_stage)) is Err by {
                    lemma_outcome_iff_can_finish(pos0, moves@, srcs, last_stage);
                }
            }
            None
        },
        Some(best_moves) => {
            let n = best_moves.len();
            let mut srcs: Vec<MoveSrc> = Vec::new();
            let mut i: usize = 0;
            while i < n
                invariant
                    0 <= i <= n,
                    n == best_moves@.len(),
                    srcs@.len() == i,
                    forall|k: int| 0 <= k < i ==> srcs@[k] == best_moves@[k].src,
                decreases n - i,
            {
                srcs.push(best_moves[i].src());
                i += 1;
            }
            proof {
                assert(srcs@ =~= srcs_of(best_moves@));
                assert forall|other: Seq<MoveSrc>|
                    (#[trigger] spec_verify(problem@, other, last_stage)) is Ok
                    implies solver.best_cost as int <= spec_verify(
                    problem@,
                    other,
                    last_stage,
                )->Ok_0 by {
                    lemma_outcome_iff_can_finish(pos0, moves@, other, last_stage);
                }
            }
            Some((Solution(srcs), solver.best_cost))
        },
    }
}


/// Text of the lanes at `i` and following, each preceded by one space.
pub open spec fn fmt_solution_from(srcs: Seq<MoveSrc>, i: int) -> Seq<char>
    decreases srcs.len() - i,
{
    if i < 0 || i >= srcs.len() {
        Seq::empty()
    } else {
        seq![' '] + dec_digits(srcs[i].spec_inner()) + fmt_solution_from(srcs, i + 1)
    }
}

/// The text encoding of a solution: its lanes in order, space-separated.
pub open spec fn spec_solution_text(srcs: Seq<MoveSrc>) -> Seq<char> {
    if srcs.len() == 0 {
        Seq::empty()
    } else {
        dec_digits(srcs[0].spec_inner()) + fmt_solution_from(srcs, 1)
    }
}

/// Lanes read from whitespace-separated tokens `i` and following.
pub open spec fn spec_parse_lanes(toks: Seq<Seq<char>>, i: int) -> Result<Seq<MoveSrc>, ParseError>
    decreases toks.len() - i,
{
    if i < 0 || i >= toks.len() {
        Ok(Seq::empty())
    } else {
        match spec_parse_u8(toks[i], i) {
            Err(e) => Err(e),
            Ok(v) => if v > 11 {
                Err(ParseError::OutOfRange { token: i as usize })
            } else {
                match spec_parse_lanes(toks, i + 1) {
                    Err(e) => Err(e),
                    Ok(rest) => Ok(seq![lane_src(v)] + rest),
                }
            },
        }
    }
}

/// Reading a solution from its text: every whitespace-separated token a
/// lane number.
pub open spec fn spec_parse_solution(s: Seq<char>) -> Result<Seq<MoveSrc>, ParseError> {
    spec_parse_lanes(ws_tokens(s), 0)
}

impl Solution {
    /// The text encoding of this solution.
    pub fn to_text(&self) -> (r: String)
        ensures
            r@ == spec_solution_text(self@),
    {
        let mut out = String::new();
        let n = self.0.len();
        if n == 0 {
            return out;
        }
        append_dec(&mut out, self.0[0].to_inner() as u64);
        let mut i: usize = 1;
        while i < n
            invariant
                1 <= i <= n,
                n == self@.len(),
                out@ + fmt_solution_from(self@, i as int) == spec_solution_text(self@),
            decreases n - i,
        {
            append_char(&mut out, ' ');
            append_dec(&mut out, self.0[i].to_inner() as u64);
            proof {
                assert((out@ + fmt_solution_from(self@, i as int + 1)) =~= (out@.subrange(
                    0,
                    out@.len() - 1 - dec_digits(self@[i as int].spec_inner()).len(),
                ) + fmt_solution_from(self@, i as int)));
            }
            i += 1;
        }
        proof {
            assert(fmt_solution_from(self@, n as int) =~= Seq::<char>::empty());
            assert(out@ + Seq::<char>::empty() =~= out@);
        }
        out
    }

    /// Read a solution from its text encoding.
    pub fn parse(s: &str) -> (r: Result<Solution, ParseError>)
        ensures
            match r {
                Ok(sol) => spec_parse_solution(s@) == Ok::<Seq<MoveSrc>, ParseError>(sol@),
                Err(e) => spec_parse_solution(s@) == Err::<Seq<MoveSrc>, ParseError>(e),
            },
    {
        let chars = chars_of(s);
        proof {
            assert(chars@.skip(0) =~= s@);
        }
        let toks = tokens_at(&chars, 0);
        let ghost toksv = ws_tokens(s@);
        let n = toks.len();
        let mut srcs: Vec<MoveSrc> = Vec::new();
        let mut i: usize = 0;
        while i < n
            invariant
                0 <= i <= n,
                n == toks@.len(),
                toksv == views_of(toks@),
                srcs@.len() == i,
                spec_parse_lanes(toksv, 0) == (match spec_parse_lanes(toksv, i as int) {
                    Err(e) => Err::<Seq<MoveSrc>, ParseError>(e),
                    Ok(rest) => Ok::<Seq<MoveSrc>, ParseError>(srcs@ + rest),
                }),
            decreases n - i,
        {
            proof {
                assert(toks@[i as int]@ == toksv[i as int]);
            }
            let v = match parse_u8_token(&toks[i], i) {
                Err(e) => {
                    return Err(e);
                },
                Ok(v) => v,
            };
            let src = match MoveSrc::from_inner(v) {
                None => {
                    return Err(ParseError::OutOfRange { token: i });
                },
                Some(m) => m,
            };
            proof {
                assert(lane_src(v as int) == src);
                match spec_parse_lanes(toksv, i as int + 1) {
                    Err(e) => {},
                    Ok(rest) => {
                        assert(srcs@ + (seq![src] + rest) =~= srcs@.push(src) + rest);
                    },
                }
            }
            srcs.push(src);
            i += 1;
        }
        proof {
            assert(srcs@ + Seq::<MoveSrc>::empty() =~= srcs@);
        }
        Ok(Solution(srcs))
    }
}

} // verus!
