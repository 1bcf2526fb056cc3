//! The search subsystem: a flat board snapshot, move generation, static
//! evaluation, move prioritization, and fixed-depth alpha-beta search.

pub mod board;
pub mod eval;
pub mod matrix;
pub mod moveiter;
pub mod priority;

use vstd::prelude::*;

use crate::ai::board::{pos_at, Board};
use vstd::std_specs::cmp::PartialEqSpec;
use crate::ai::eval::{leaf_value_of, value_order, EvalData, Value};
use crate::ai::priority::PriorityEvalData;
use crate::board::model::{
    after_move, arrow_move_ok, has_candidate_move, lemma_chain_first_hop, move_events_spec,
    single_move_ok, BoardView,
};
use crate::ai::moveiter::yields_single;
use crate::board::{opposite, Boardable, OctiMove, Position, Team};

verus! {

/// Width of the playing area in cells.
pub const BOARD_WIDTH: usize = 6;

/// Height of the playing area in cells.
pub const BOARD_HEIGHT: usize = 7;

/// Whether a position is one of the given team's three home cells, the
/// interior of its starting row.
pub open spec fn is_start_pos(pos: Position, team: Team) -> bool {
    match team {
        Team::Red => pos.1 == 5 && 0 < pos.0 < 5,
        Team::Green => pos.1 == 1 && 0 < pos.0 < 5,
    }
}

/// Whether a position is one of the given team's three home cells.
pub fn is_starting_position(pos: Position, team: Team) -> (r: bool)
    ensures
        r == is_start_pos(pos, team),
{
    match team {
        Team::Red => pos.1 == 5 && pos.0 > 0 && pos.0 < 5,
        Team::Green => pos.1 == 1 && pos.0 > 0 && pos.0 < 5,
    }
}

/// The winner found by scanning cells from slot `idx` on, having already
/// seen pieces of the flagged teams: the first piece standing on the enemy's
/// home cells wins at once; otherwise a team wins exactly when only its
/// pieces remain.
pub open spec fn winner_scan(v: BoardView, idx: int, saw_red: bool, saw_green: bool) -> Option<
    Team,
>
    decreases 42 - idx,
{
    if idx < 0 || idx >= 42 {
        if saw_red && !saw_green {
            Some(Team::Red)
        } else if !saw_red && saw_green {
            Some(Team::Green)
        } else {
            None
        }
    } else {
        let p = pos_at(idx);
        if v.occ.contains_key(p) {
            let o = v.occ[p];
            match o.team {
                Team::Red => if is_start_pos(p, Team::Green) {
                    Some(Team::Red)
                } else {
                    winner_scan(v, idx + 1, true, saw_green)
                },
                Team::Green => if is_start_pos(p, Team::Red) {
                    Some(Team::Green)
                } else {
                    winner_scan(v, idx + 1, saw_red, true)
                },
            }
        } else {
            winner_scan(v, idx + 1, saw_red, saw_green)
        }
    }
}

/// The winner of a board state, if the game is over.
pub open spec fn winner_view(v: BoardView) -> Option<Team> {
    winner_scan(v, 0, false, false)
}

/// The winner of a search board, if the game is over: a side wins when one
/// of its pieces stands on the opponent's home cells, or when the opponent
/// has no pieces left.
pub fn winner(board: &Board) -> (r: Option<Team>)
    requires
        board.wf(),
    ensures
        r == winner_view(board.bview()),
{
    let ghost v = board.bview();
    let mut saw_red = false;
    let mut saw_green = false;
    let mut idx: usize = 0;
    while idx < 42
        invariant
            board.wf(),
            v == board.bview(),
            idx <= 42,
            winner_view(v) == winner_scan(v, idx as int, saw_red, saw_green),
        decreases 42 - idx,
    {
        match &board.octis[idx] {
            Some(o) => {
                proof {
                    crate::ai::board::lemma_index_grid(idx as int);
                }
                match o.team {
                    Team::Red => {
                        if is_starting_position(o.pos, Team::Green) {
                            return Some(Team::Red);
                        }
                        saw_red = true;
                    },
                    Team::Green => {
                        if is_starting_position(o.pos, Team::Red) {
                            return Some(Team::Green);
                        }
                        saw_green = true;
                    },
                }
            },
            None => {
                proof {
                    crate::ai::board::lemma_index_grid(idx as int);
                }
            },
        }
        idx = idx + 1;
    }
    if saw_red && !saw_green {
        Some(Team::Red)
    } else if !saw_red && saw_green {
        Some(Team::Green)
    } else {
        None
    }
}

/// A search score: an evaluation value paired with the recursion depth it
/// was found at, the tie-break that makes the engine prefer outcomes that
/// take more plies to reach.
#[derive(Clone, Copy, PartialEq, Eq, Structural, Debug)]
pub struct BoardScore(pub Value, pub u32);

impl BoardScore {
    pub fn value(&self) -> (r: Value)
        ensures
            r == self.0,
    {
        self.0
    }

    pub fn depth(&self) -> (r: u32)
        ensures
            r == self.1,
    {
        self.1
    }

    /// Whether this score ties the other's value but was found deeper in
    /// the tree, and so is preferred by the tie-break.
    fn same_lower_depth(&self, other: &BoardScore) -> (r: bool)
        ensures
            r == tie_break_prefers(*self, *other),
    {
        self.0 == other.0 && other.1 < self.1
    }
}

/// The depth tie-break: among equal values, the score reached at the
/// strictly larger depth (more plies from the root) wins.
pub open spec fn tie_break_prefers(a: BoardScore, b: BoardScore) -> bool {
    a.0 == b.0 && b.1 < a.1
}

/// A win-sentinel score for Red compares strictly greater than any score
/// carrying a finite value or a Green win, and a Green win sentinel
/// strictly less, whatever depth counters either score carries; scores
/// with equal values compare equal, separated only by the depth
/// tie-break.
pub proof fn lemma_win_score_order(a: BoardScore, b: BoardScore)
    ensures
        a.0 == Value::Win(Team::Red) && b.0 != Value::Win(Team::Red) ==> value_order(a.0, b.0)
            == Some(core::cmp::Ordering::Greater),
        a.0 == Value::Win(Team::Green) && b.0 != Value::Win(Team::Green) ==> value_order(a.0, b.0)
            == Some(core::cmp::Ordering::Less),
        a.0 == b.0 ==> value_order(a.0, b.0) == Some(core::cmp::Ordering::Equal),
{
    match b.0 {
        Value::Score(_) => {
        },
        Value::Win(t) => {
            match t {
                Team::Red => {
                },
                Team::Green => {
                },
            }
        },
    }
    match a.0 {
        Value::Score(_) => {
        },
        Value::Win(t) => {
            match t {
                Team::Red => {
                },
                Team::Green => {
                },
            }
        },
    }
}

/// Scores with equal values compare equal, and the tie-break then prefers
/// exactly the one found at the strictly larger depth: the engine keeps
/// claiming a win in as many plies as possible and delays a loss as long
/// as possible, instead of collapsing to an equal but earlier outcome.
pub proof fn lemma_tie_break(a: BoardScore, b: BoardScore)
    requires
        a.0 == b.0,
    ensures
        value_order(a.0, b.0) == Some(core::cmp::Ordering::Equal),
        a.1 > b.1 ==> tie_break_prefers(a, b) && !tie_break_prefers(b, a),
        a.1 == b.1 ==> !tie_break_prefers(a, b) && !tie_break_prefers(b, a),
{
    match a.0 {
        Value::Score(_) => {
        },
        Value::Win(t) => {
            match t {
                Team::Red => {
                },
                Team::Green => {
                },
            }
        },
    }
}

impl PartialOrd for BoardScore {
    /// Scores order by their values alone; depth only breaks ties through
    /// the explicit tie-break rule.
    fn partial_cmp(&self, other: &Self) -> (r: Option<core::cmp::Ordering>) {
        self.0.partial_cmp(&other.0)
    }
}

impl vstd::std_specs::cmp::PartialOrdSpecImpl for BoardScore {
    open spec fn obeys_partial_cmp_spec() -> bool {
        true
    }

    open spec fn partial_cmp_spec(&self, other: &Self) -> Option<core::cmp::Ordering> {
        value_order(self.0, other.0)
    }
}

/// The outcome of a search: the score of the chosen line, and the move that
/// starts it (absent at leaves and on memoized hits).
#[derive(Clone)]
pub struct MinimaxResult(pub BoardScore, pub Option<OctiMove>);

impl MinimaxResult {
    pub fn score(&self) -> (r: BoardScore)
        ensures
            r == self.0,
    {
        self.0
    }

    pub fn octi_move(self) -> (r: Option<OctiMove>)
        ensures
            r == self.1,
    {
        self.1
    }
}


/// Looks a board up in the score memo table: a hit is the score some entry
/// recorded for an equal board; an empty table never hits.
fn table_get(table: &Vec<(Board, BoardScore)>, b: &Board) -> (r: Option<BoardScore>)
    ensures
        r matches Some(s) ==> exists|k: int|
            0 <= k < table@.len() && (#[trigger] table@[k]).0.eq_spec(b) && table@[k].1 == s,
        table@.len() == 0 ==> r is None,
{
    let mut k: usize = 0;
    while k < table.len()
        decreases table@.len() - k,
    {
        if table[k].0.eq(b) {
            return Some(table[k].1);
        }
        k = k + 1;
    }
    None
}

/// The worst possible score for a side: the opponent's win, marked as found
/// as shallowly as possible so any real line is preferred over it.
fn worst_score_for(turn: Team) -> (r: BoardScore)
    ensures
        r == BoardScore(Value::Win(opposite(turn)), u32::MAX),
{
    match turn {
        Team::Red => BoardScore(Value::Win(Team::Green), u32::MAX),
        Team::Green => BoardScore(Value::Win(Team::Red), u32::MAX),
    }
}

/// Fixed-depth alpha-beta search. Leaves (depth exhausted or game over)
/// evaluate statically; otherwise the prioritized children are searched
/// left to right, maximizing for Red and minimizing for Green, with
/// standard cutoffs, the depth tie-break on equal values, and a memo table
/// of scores consulted when its entry was established at least this deep.
fn search_minimax(
    board: &Board,
    depth: u32,
    target_depth: u32,
    alpha: BoardScore,
    beta: BoardScore,
    score_table: &mut Vec<(Board, BoardScore)>,
    eval_data: &EvalData,
    priority_eval_data: &PriorityEvalData,
) -> (r: MinimaxResult)
    requires
        board.wf(),
        eval_data.wf(),
        priority_eval_data.wf(),
        depth <= target_depth,
    ensures
        r.1 matches Some(m) ==> crate::board::model::move_ok(board.bview(), m),
        depth < target_depth && winner_view(board.bview()) is None && old(
            score_table,
        )@.len() == 0 ==> (r.1 is Some <==> has_candidate_move(board.bview())),
        depth == target_depth || winner_view(board.bview()) is Some ==> r.1 is None && r.0.1
            == depth && leaf_value_of(board.bview(), *eval_data, r.0.0),
        depth < target_depth && winner_view(board.bview()) is None && old(
            score_table,
        )@.len() == 0 && target_depth == depth + 1 ==> (r.1 matches Some(m) ==> leaf_value_of(
            after_move(board.bview(), move_events_spec(board.bview(), m).unwrap()),
            *eval_data,
            r.0.0,
        )),
    decreases target_depth - depth,
{
    let ghost v = board.bview();
    if depth == target_depth || winner(board).is_some() {
        return MinimaxResult(BoardScore(crate::ai::eval::board_eval(board, eval_data), depth), None);
    }
    match table_get(score_table, board) {
        Some(board_score) => {
            // A score cached at least as deep as this node is at least as
            // reliable, and can stand in for recomputing it.
            if board_score.depth() >= depth {
                return MinimaxResult(board_score, None);
            }
        },
        None => (),
    }
    let mut alpha = alpha;
    let mut beta = beta;
    let turn = board.turn();
    let mut value = worst_score_for(turn);
    let mut value_move_idx: Option<usize> = None;

    let mut it = crate::ai::moveiter::new_octi_move_iterator(board);
    let mut moves: Vec<OctiMove> = Vec::new();
    let mut exhausted = false;
    while !exhausted
        invariant
            it.wf(),
            it.src_view() == v,
            moves@ == it.yielded_all(),
            forall|i: int| 0 <= i < moves@.len() ==> crate::board::model::move_ok(v, #[trigger] moves@[i]),
            forall|i: int|
                0 <= i < moves@.len() ==> (#[trigger] moves@[i] matches OctiMove::Move(_, c)
                    ==> 1 <= c@.len()),
            exhausted ==> forall|p: Position, ar: crate::board::Arrow| #[trigger]
                arrow_move_ok(v, p, ar) ==> moves@.contains(OctiMove::Arrow(p, ar)),
            exhausted ==> forall|p: Position, a: int|
                0 <= a < 8 && #[trigger] single_move_ok(v, p, a) ==> yields_single(moves@, p, a),
        decreases it.measure() + 1, (if exhausted { 0int } else { 1int }),
    {
        match it.next() {
            Some(m) => {
                moves.push(m);
            },
            None => {
                exhausted = true;
            },
        }
    }
    proof {
        board.wf_view();
        // the generator came up empty exactly when no candidate move
        // exists: a legal chain's first hop is itself a legal one-hop
        // movement, which the generator would have yielded
        assert(moves@.len() > 0 <==> has_candidate_move(v)) by {
            if moves@.len() > 0 {
                match moves@[0] {
                    OctiMove::Arrow(p, ar) => {
                        assert(arrow_move_ok(v, p, ar));
                    },
                    OctiMove::Move(p, c) => {
                        lemma_chain_first_hop(v, p, c@);
                        assert(single_move_ok(v, p, c@[0].0 as int));
                    },
                }
            }
            if has_candidate_move(v) {
                if exists|p: Position, ar: crate::board::Arrow| #[trigger] arrow_move_ok(v, p, ar) {
                    let (p, ar) = choose|p: Position, ar: crate::board::Arrow| #[trigger]
                        arrow_move_ok(v, p, ar);
                    assert(moves@.contains(OctiMove::Arrow(p, ar)));
                } else {
                    let (p, a) = choose|p: Position, a: int|
                        0 <= a < 8 && #[trigger] single_move_ok(v, p, a);
                    assert(yields_single(moves@, p, a));
                }
            }
        }
    }
    let all_contexts = crate::ai::priority::get_contexts_sorted(board, moves, priority_eval_data);
    let mut ci: usize = 0;
    while ci < all_contexts.len()
        invariant_except_break
            value_move_idx is Some <==> ci > 0,
        invariant
            board.wf(),
            eval_data.wf(),
            priority_eval_data.wf(),
            v == board.bview(),
            turn == v.turn,
            depth < target_depth,
            value_move_idx is None ==> value == BoardScore(
                Value::Win(opposite(turn)),
                u32::MAX,
            ),
            target_depth == depth + 1 ==> (value_move_idx matches Some(i) ==> i
                < all_contexts@.len() && leaf_value_of(
                after_move(v, move_events_spec(v, all_contexts@[i as int].octi_move).unwrap()),
                *eval_data,
                value.0,
            )),
            forall|k: int|
                0 <= k < all_contexts@.len() ==> crate::ai::priority::ctx_ok(
                    v,
                    *priority_eval_data,
                    #[trigger] all_contexts@[k],
                ),
            value_move_idx matches Some(i) ==> i < all_contexts@.len(),
        ensures
            forall|k: int|
                0 <= k < all_contexts@.len() ==> crate::ai::priority::ctx_ok(
                    v,
                    *priority_eval_data,
                    #[trigger] all_contexts@[k],
                ),
            value_move_idx matches Some(i) ==> i < all_contexts@.len(),
            value_move_idx is Some <==> all_contexts@.len() > 0,
            target_depth == depth + 1 ==> (value_move_idx matches Some(i) ==> leaf_value_of(
                after_move(v, move_events_spec(v, all_contexts@[i as int].octi_move).unwrap()),
                *eval_data,
                value.0,
            )),
        decreases all_contexts@.len() - ci,
    {
        let ghost was_none = value_move_idx is None;
        if value_move_idx.is_none() {
            value_move_idx = Some(ci);
        }
        let context = &all_contexts[ci];
        let result = search_minimax(
            context.board(),
            depth + 1,
            target_depth,
            alpha,
            beta,
            score_table,
            eval_data,
            priority_eval_data,
        );
        let eval = result.score();
        match turn {
            Team::Red => {
                let take_it = eval > value || eval.same_lower_depth(&value);
                if take_it {
                    value = eval;
                    value_move_idx = Some(ci);
                }
                proof {
                    if target_depth == depth + 1 {
                        let w = after_move(
                            v,
                            move_events_spec(v, all_contexts@[ci as int].octi_move).unwrap(),
                        );
                        assert(leaf_value_of(w, *eval_data, eval.0));
                        if !take_it && was_none {
                            // the first child did not beat the losing
                            // sentinel, so it evaluated to that sentinel
                            match eval.0 {
                                Value::Score(s) => {
                                    assert(false);
                                },
                                Value::Win(t) => {
                                    match t {
                                        Team::Red => {
                                            assert(false);
                                        },
                                        Team::Green => (),
                                    }
                                },
                            }
                            assert(value.0 == eval.0);
                        }
                    }
                }
                if value > alpha || value.same_lower_depth(&alpha) {
                    alpha = value;
                }
                if value >= beta {
                    break;
                }
            },
            Team::Green => {
                let take_it = eval < value || eval.same_lower_depth(&value);
                if take_it {
                    value = eval;
                    value_move_idx = Some(ci);
                }
                proof {
                    if target_depth == depth + 1 {
                        let w = after_move(
                            v,
                            move_events_spec(v, all_contexts@[ci as int].octi_move).unwrap(),
                        );
                        assert(leaf_value_of(w, *eval_data, eval.0));
                        if !take_it && was_none {
                            // the first child did not beat the losing
                            // sentinel, so it evaluated to that sentinel
                            match eval.0 {
                                Value::Score(s) => {
                                    assert(false);
                                },
                                Value::Win(t) => {
                                    match t {
                                        Team::Green => {
                                            assert(false);
                                        },
                                        Team::Red => (),
                                    }
                                },
                            }
                            assert(value.0 == eval.0);
                        }
                    }
                }
                if value < beta || value.same_lower_depth(&beta) {
                    beta = value;
                }
                if value <= alpha {
                    break;
                }
            },
        }
        ci = ci + 1;
    }
    score_table.insert(0, (board.clone(), value));
    score_table.insert(0, (board.horizontal_flip(), value));
    let mut all_contexts = all_contexts;
    let value_move: Option<OctiMove> = match value_move_idx {
        Some(i) => Some(all_contexts.remove(i).octi_move()),
        None => None,
    };
    MinimaxResult(value, value_move)
}

/// Why a search request failed.
#[derive(Clone, Copy, PartialEq, Eq, Structural, Debug)]
pub enum AiError {
    /// The search depth must be at least one ply.
    ZeroDepth,
    /// The side to move has no legal move (or the game is already over).
    NoMoves,
}

impl AiError {
    /// A short description of the failure, for display.
    pub fn message(&self) -> String {
        match self {
            AiError::ZeroDepth => String::from_str("the search depth cannot be zero"),
            AiError::NoMoves => String::from_str("no possible moves from this position"),
        }
    }
}

/// Searches the position to the given depth and picks a move for the side
/// to move. Fails on a zero depth, and with the no-moves error exactly when
/// the game is already over or the side to move has no candidate move.
pub fn minimax(board: &Board, depth: u32, eval_data: &EvalData, priority_eval_data: &PriorityEvalData) -> (r: Result<MinimaxResult, AiError>)
    requires
        board.wf(),
        eval_data.wf(),
        priority_eval_data.wf(),
    ensures
        depth == 0 <==> r == Err::<MinimaxResult, AiError>(AiError::ZeroDepth),
        depth >= 1 ==> (r == Err::<MinimaxResult, AiError>(AiError::NoMoves) <==> (winner_view(
            board.bview(),
        ) is Some || !has_candidate_move(board.bview()))),
        r matches Ok(mr) ==> mr.1 matches Some(m) && crate::board::model::move_ok(
            board.bview(),
            m,
        ),
        depth == 1 ==> (r matches Ok(mr) ==> mr.1 matches Some(m) && leaf_value_of(
            after_move(board.bview(), move_events_spec(board.bview(), m).unwrap()),
            *eval_data,
            mr.0.0,
        )),
{
    if depth == 0 {
        return Err(AiError::ZeroDepth);
    }
    let mut score_table: Vec<(Board, BoardScore)> = Vec::new();
    let result = search_minimax(
        board,
        0,
        depth,
        worst_score_for(Team::Red),
        worst_score_for(Team::Green),
        &mut score_table,
        eval_data,
        priority_eval_data,
    );
    if result.1.is_some() {
        Ok(result)
    } else {
        Err(AiError::NoMoves)
    }
}

} // verus!
