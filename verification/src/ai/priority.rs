//! Heuristic ranking of candidate moves, used to order search children for
//! effective alpha-beta pruning. Each move is paired with the board it
//! produces, computed once here and reused by the search.

use vstd::prelude::*;

use crate::ai::board::{lemma_index_grid, pos_at, Board};
use crate::ai::{is_start_pos, is_starting_position, winner, winner_view};
use crate::board::model::{after_move, move_events_spec, move_ok, BoardView};
use crate::board::{
    lemma_popcount_bounds, popcount, Boardable, BoardEventProcessor, OctiMove, Position,
    Team,
};

verus! {

broadcast use vstd::seq_lib::group_to_multiset_ensures;

pub type Priority = u32;

/// Cap on each priority weight, so that no candidate's priority sum can
/// overflow or collide with the win sentinel.
pub const PRIORITY_WEIGHT_LIMIT: u32 = 0x0100_0000;

/// The four scalar weights of the move prioritizer.
#[derive(Clone, Copy, PartialEq, Eq, Structural, Debug)]
pub struct PriorityEvalData {
    pub has_moved_value: u32,
    pub mov_value: u32,
    pub kill_value: u32,
    pub arrow_value: u32,
}

impl PriorityEvalData {
    pub open spec fn wf(&self) -> bool {
        &&& self.has_moved_value <= PRIORITY_WEIGHT_LIMIT
        &&& self.mov_value <= PRIORITY_WEIGHT_LIMIT
        &&& self.kill_value <= PRIORITY_WEIGHT_LIMIT
        &&& self.arrow_value <= PRIORITY_WEIGHT_LIMIT
    }

    /// Builds a weight set, rejecting weights beyond the cap.
    pub fn new(has_moved_value: u32, mov_value: u32, kill_value: u32, arrow_value: u32) -> (r:
        Result<PriorityEvalData, String>)
        ensures
            (has_moved_value <= PRIORITY_WEIGHT_LIMIT && mov_value <= PRIORITY_WEIGHT_LIMIT
                && kill_value <= PRIORITY_WEIGHT_LIMIT && arrow_value <= PRIORITY_WEIGHT_LIMIT)
                <==> r == Ok::<PriorityEvalData, String>(
                PriorityEvalData { has_moved_value, mov_value, kill_value, arrow_value },
            ),
            r matches Ok(d) ==> d.wf(),
    {
        if has_moved_value <= PRIORITY_WEIGHT_LIMIT && mov_value <= PRIORITY_WEIGHT_LIMIT
            && kill_value <= PRIORITY_WEIGHT_LIMIT && arrow_value <= PRIORITY_WEIGHT_LIMIT {
            Ok(PriorityEvalData { has_moved_value, mov_value, kill_value, arrow_value })
        } else {
            Err(String::from_str("priority weights beyond the cap"))
        }
    }
}

/// A candidate move with its context: the board it produces and its
/// heuristic priority.
pub struct OctiMoveContext {
    pub octi_move: OctiMove,
    pub board: Board,
    pub priority: Priority,
}

impl OctiMoveContext {
    pub fn board(&self) -> (r: &Board)
        ensures
            r == &self.board,
    {
        &self.board
    }

    pub fn octi_move(self) -> (r: OctiMove)
        ensures
            r == self.octi_move,
    {
        self.octi_move
    }
}

/// The starting position a move names.
pub open spec fn move_pos_of_m(m: OctiMove) -> Position {
    match m {
        OctiMove::Arrow(p, _) => p,
        OctiMove::Move(p, _) => p,
    }
}

/// Number of pieces not of the given team, counted from cell slot `idx` on.
pub open spec fn view_enemy_count(v: BoardView, idx: int, t: Team) -> int
    decreases 42 - idx,
{
    if idx < 0 || idx >= 42 {
        0
    } else {
        (if v.occ.contains_key(pos_at(idx)) && v.occ[pos_at(idx)].team != t {
            1int
        } else {
            0int
        }) + view_enemy_count(v, idx + 1, t)
    }
}

proof fn lemma_view_enemy_count_bounds(v: BoardView, idx: int, t: Team)
    requires
        0 <= idx <= 42,
    ensures
        0 <= view_enemy_count(v, idx, t) <= 42 - idx,
    decreases 42 - idx,
{
    if idx < 42 {
        lemma_view_enemy_count_bounds(v, idx + 1, t);
    }
}

/// Counts the pieces on the board that do not belong to the given team.
fn count_enemies(board: &Board, t: Team) -> (r: u32)
    requires
        board.wf(),
    ensures
        r as int == view_enemy_count(board.bview(), 0, t),
        r <= 42,
{
    let ghost v = board.bview();
    let mut count: u32 = 0;
    let mut idx: usize = 0;
    proof {
        lemma_view_enemy_count_bounds(v, 0, t);
    }
    while idx < 42
        invariant
            board.wf(),
            v == board.bview(),
            idx <= 42,
            count <= idx,
            view_enemy_count(v, 0, t) == count + view_enemy_count(v, idx as int, t),
        decreases 42 - idx,
    {
        proof {
            lemma_index_grid(idx as int);
        }
        match &board.octis[idx] {
            Some(o) => {
                if o.team != t {
                    count = count + 1;
                }
            },
            None => (),
        }
        idx = idx + 1;
    }
    proof {
        lemma_view_enemy_count_bounds(v, 0, t);
    }
    count
}

/// The heuristic priority of a candidate that does not end the game: a
/// bonus for a piece that already left its home row; for an arrow placement
/// a bonus per already-active arrow; for movement a fixed bonus plus a
/// bonus per enemy piece removed.
pub open spec fn priority_of(v: BoardView, m: OctiMove, d: PriorityEvalData, kills: int) -> int {
    match m {
        OctiMove::Arrow(pos, _) => {
            let o = v.occ[pos];
            (if !is_start_pos(pos, o.team) {
                d.has_moved_value as int
            } else {
                0int
            }) + popcount(o.arrs) * d.arrow_value
        },
        OctiMove::Move(pos, _) => {
            let o = v.occ[pos];
            d.mov_value + (if !is_start_pos(pos, o.team) {
                d.has_moved_value as int
            } else {
                0int
            }) + kills * d.kill_value
        },
    }
}

/// The priority of a legal candidate move: the extremes for a move that
/// ends the game (highest when the mover wins, lowest when it loses),
/// otherwise the additive heuristic, with captures counted as the drop in
/// the opposing piece count.
pub open spec fn ctx_priority(v: BoardView, m: OctiMove, d: PriorityEvalData) -> int {
    let v2 = after_move(v, move_events_spec(v, m).unwrap());
    match winner_view(v2) {
        Some(w) => if w == v.turn {
            u32::MAX as int
        } else {
            0int
        },
        None => {
            let t = v.occ[move_pos_of_m(m)].team;
            let before = view_enemy_count(v, 0, t);
            let after = view_enemy_count(v2, 0, t);
            let kills: int = if after <= before {
                before - after
            } else {
                0int
            };
            priority_of(v, m, d, kills)
        },
    }
}

/// What a move context carries: the board its move produces, and that
/// move's heuristic priority.
pub open spec fn ctx_ok(v: BoardView, d: PriorityEvalData, c: OctiMoveContext) -> bool {
    &&& move_ok(v, c.octi_move)
    &&& c.board.wf()
    &&& c.board.bview() == after_move(v, move_events_spec(v, c.octi_move).unwrap())
    &&& c.priority as int == ctx_priority(v, c.octi_move, d)
}

/// Builds the context of one legal candidate move: the board it produces,
/// and its priority.
fn priority_eval(board: &Board, octi_move: OctiMove, priority_eval_data: &PriorityEvalData) -> (r:
    OctiMoveContext)
    requires
        board.wf(),
        priority_eval_data.wf(),
        move_ok(board.bview(), octi_move),
    ensures
        ctx_ok(board.bview(), *priority_eval_data, r),
        r.octi_move == octi_move,
{
    let ghost v = board.bview();
    proof {
        board.wf_view();
    }
    let mut next_board = board.clone();
    let moved = next_board.make_move(&octi_move);
    proof {
        assert(moved is Ok);
    }
    let mut priority: u32 = 0;
    let game_winner = winner(&next_board);
    match game_winner {
        Some(game_winner) => {
            if game_winner == board.turn() {
                priority = u32::MAX;
            } else {
                priority = 0;
            }
        },
        None => {
            match &octi_move {
                OctiMove::Arrow(pos, _) => {
                    let octi = *board.get_octi_by_pos(pos).unwrap();
                    let team = octi.team();
                    if !is_starting_position(*pos, team) {
                        priority = priority + priority_eval_data.has_moved_value;
                    }
                    let count = octi.arr_count();
                    proof {
                        lemma_popcount_bounds(octi.arrs);
                        assert(count * priority_eval_data.arrow_value <= 8 * (
                        PRIORITY_WEIGHT_LIMIT as int)) by (nonlinear_arith)
                            requires
                                count <= 8,
                                0 <= priority_eval_data.arrow_value <= PRIORITY_WEIGHT_LIMIT,
                        ;
                    }
                    priority = priority + count * priority_eval_data.arrow_value;
                },
                OctiMove::Move(pos, _) => {
                    priority = priority + priority_eval_data.mov_value;
                    let octi = *board.get_octi_by_pos(pos).unwrap();
                    let team = octi.team();
                    if !is_starting_position(*pos, team) {
                        priority = priority + priority_eval_data.has_moved_value;
                    }
                    let enemy_octis_count_before = count_enemies(board, team);
                    let enemy_octis_count_after = count_enemies(&next_board, team);
                    let kills: u32 = if enemy_octis_count_after <= enemy_octis_count_before {
                        enemy_octis_count_before - enemy_octis_count_after
                    } else {
                        0
                    };
                    proof {
                        assert(kills * priority_eval_data.kill_value <= 42 * (
                        PRIORITY_WEIGHT_LIMIT as int)) by (nonlinear_arith)
                            requires
                                kills <= 42,
                                0 <= priority_eval_data.kill_value <= PRIORITY_WEIGHT_LIMIT,
                        ;
                    }
                    priority = priority + kills * priority_eval_data.kill_value;
                },
            }
        },
    }
    OctiMoveContext { octi_move, board: next_board, priority }
}

/// The moves of a list of contexts, in order.
pub open spec fn moves_of(s: Seq<OctiMoveContext>) -> Seq<OctiMove> {
    s.map_values(|c: OctiMoveContext| c.octi_move)
}

/// Builds the context of every given legal move and returns them ordered by
/// descending priority; the moves come back as a permutation of the input.
pub fn get_contexts_sorted(
    board: &Board,
    octi_moves: Vec<OctiMove>,
    priority_eval_data: &PriorityEvalData,
) -> (r: Vec<OctiMoveContext>)
    requires
        board.wf(),
        priority_eval_data.wf(),
        forall|i: int| 0 <= i < octi_moves@.len() ==> move_ok(board.bview(), #[trigger] octi_moves@[i]),
    ensures
        r@.len() == octi_moves@.len(),
        forall|k: int| 0 <= k < r@.len() ==> ctx_ok(board.bview(), *priority_eval_data, #[trigger] r@[k]),
        forall|i: int, j: int| 0 <= i <= j < r@.len() ==> r@[i].priority >= r@[j].priority,
        moves_of(r@).to_multiset() == octi_moves@.to_multiset(),
{
    let ghost v = board.bview();
    let ghost orig = octi_moves@;
    let mut remaining = octi_moves;
    let mut contexts: Vec<OctiMoveContext> = Vec::new();
    while remaining.len() > 0
        invariant
            board.wf(),
            priority_eval_data.wf(),
            v == board.bview(),
            forall|i: int| 0 <= i < orig.len() ==> move_ok(v, #[trigger] orig[i]),
            contexts@.len() + remaining@.len() == orig.len(),
            remaining@ =~= orig.skip(contexts@.len() as int),
            moves_of(contexts@) =~= orig.take(contexts@.len() as int),
            forall|i: int|
                0 <= i < contexts@.len() ==> ctx_ok(v, *priority_eval_data, #[trigger] contexts@[i]),
        decreases remaining@.len(),
    {
        let ghost k = contexts@.len() as int;
        let ghost contexts_before = contexts@;
        let m = remaining.remove(0);
        proof {
            assert(m == orig[k]);
        }
        let c = priority_eval(board, m, priority_eval_data);
        contexts.push(c);
        proof {
            assert(moves_of(contexts@) =~= moves_of(contexts_before).push(c.octi_move));
            assert(moves_of(contexts@) =~= orig.take(k + 1));
        }
    }
    proof {
        assert(moves_of(contexts@) =~= orig);
        assert(moves_of(contexts@).to_multiset() == orig.to_multiset());
    }
    let mut src = contexts;
    let mut out: Vec<OctiMoveContext> = Vec::new();
    while src.len() > 0
        invariant
            board.wf(),
            priority_eval_data.wf(),
            v == board.bview(),
            out@.len() + src@.len() == orig.len(),
            forall|i: int| 0 <= i < src@.len() ==> ctx_ok(v, *priority_eval_data, #[trigger] src@[i]),
            forall|i: int| 0 <= i < out@.len() ==> ctx_ok(v, *priority_eval_data, #[trigger] out@[i]),
            forall|i: int, j: int| 0 <= i <= j < out@.len() ==> out@[i].priority >= out@[j].priority,
            forall|i: int, j: int|
                0 <= i < out@.len() && 0 <= j < src@.len() ==> out@[i].priority >= src@[j].priority,
            moves_of(out@).to_multiset().add(moves_of(src@).to_multiset()) == orig.to_multiset(),
        decreases src@.len(),
    {
        let mut best: usize = 0;
        let mut b: usize = 1;
        while b < src.len()
            invariant
                src@.len() > 0,
                best < src@.len(),
                b <= src@.len(),
                forall|i: int| 0 <= i < b ==> src@[best as int].priority >= (#[trigger] src@[i]).priority,
            decreases src@.len() - b,
        {
            if src[b].priority > src[best].priority {
                best = b;
            }
            b = b + 1;
        }
        let ghost src_before = src@;
        let ghost out_before = out@;
        let c = src.remove(best);
        out.push(c);
        proof {
            assert(moves_of(src_before)[best as int] == c.octi_move);
            assert(moves_of(src_before).contains(c.octi_move));
            assert(moves_of(src@) =~= moves_of(src_before).remove(best as int));
            assert(moves_of(out@) =~= moves_of(out_before).push(c.octi_move));
            assert(moves_of(out@).to_multiset().add(moves_of(src@).to_multiset())
                =~= moves_of(out_before).to_multiset().add(moves_of(src_before).to_multiset()));
        }
    }
    out
}

} // verus!
