//! Static, zero-sum evaluation of a search board from Red's perspective:
//! terminal-win detection, per-piece and per-arrow values, positional
//! weights, and a one-ply mobility bonus over generated movement moves.
//! Accumulation saturates at the integer limits instead of overflowing;
//! with the weight tables in ordinary use it never reaches them.

use vstd::prelude::*;

use crate::ai::board::{
    cells_list, cells_occ, in_grid, lemma_cells_list_mem, lemma_index_grid, pos_at, Board,
};
use crate::ai::matrix::Matrix;
use crate::ai::moveiter::{new_move_octi_move_iterator, survives_guard, yields_chain};
use crate::ai::{winner, winner_view};
use crate::board::model::{
    after_move, lemma_move_events_ok, move_events_spec, move_ok, view_wf, BoardView,
};
use crate::board::{
    mask_bit, Arrow, Boardable, BoardEvent, BoardEventProcessor, Octi, OctiMove, Position, Team,
};

verus! {

/// An evaluation: a finite score, or a win sentinel for one side. The
/// sentinels are distinct from every score, so no sum can collide with
/// them.
#[derive(Clone, Copy, PartialEq, Eq, Structural, Debug)]
pub enum Value {
    Score(i64),
    Win(Team),
}

/// The total order on evaluations: a Red win above everything, a Green win
/// below everything, scores in between by magnitude.
pub open spec fn value_order(a: Value, b: Value) -> Option<core::cmp::Ordering> {
    Some(
        match a {
            Value::Win(Team::Red) => match b {
                Value::Win(Team::Red) => core::cmp::Ordering::Equal,
                _ => core::cmp::Ordering::Greater,
            },
            Value::Win(Team::Green) => match b {
                Value::Win(Team::Green) => core::cmp::Ordering::Equal,
                _ => core::cmp::Ordering::Less,
            },
            Value::Score(s) => match b {
                Value::Win(Team::Red) => core::cmp::Ordering::Less,
                Value::Win(Team::Green) => core::cmp::Ordering::Greater,
                Value::Score(s2) => if s < s2 {
                    core::cmp::Ordering::Less
                } else if s == s2 {
                    core::cmp::Ordering::Equal
                } else {
                    core::cmp::Ordering::Greater
                },
            },
        },
    )
}

impl PartialOrd for Value {
    fn partial_cmp(&self, other: &Self) -> (r: Option<core::cmp::Ordering>) {
        Some(
            match self {
                Value::Win(Team::Red) => match other {
                    Value::Win(Team::Red) => core::cmp::Ordering::Equal,
                    _ => core::cmp::Ordering::Greater,
                },
                Value::Win(Team::Green) => match other {
                    Value::Win(Team::Green) => core::cmp::Ordering::Equal,
                    _ => core::cmp::Ordering::Less,
                },
                Value::Score(s) => match other {
                    Value::Win(Team::Red) => core::cmp::Ordering::Less,
                    Value::Win(Team::Green) => core::cmp::Ordering::Greater,
                    Value::Score(s2) => if s < s2 {
                        core::cmp::Ordering::Less
                    } else if s == s2 {
                        core::cmp::Ordering::Equal
                    } else {
                        core::cmp::Ordering::Greater
                    },
                },
            },
        )
    }
}

impl vstd::std_specs::cmp::PartialOrdSpecImpl for Value {
    open spec fn obeys_partial_cmp_spec() -> bool {
        true
    }

    open spec fn partial_cmp_spec(&self, other: &Self) -> Option<core::cmp::Ordering> {
        value_order(*self, *other)
    }
}

/// A win sentinel for Red compares strictly above every finite score and
/// strictly above a Green win; a Green win compares strictly below every
/// finite score; equal sentinels for one team compare equal.
pub proof fn lemma_win_sentinel_order(s: i64)
    ensures
        value_order(Value::Win(Team::Red), Value::Score(s)) == Some(core::cmp::Ordering::Greater),
        value_order(Value::Win(Team::Red), Value::Win(Team::Green)) == Some(
            core::cmp::Ordering::Greater,
        ),
        value_order(Value::Win(Team::Green), Value::Score(s)) == Some(core::cmp::Ordering::Less),
        value_order(Value::Win(Team::Green), Value::Win(Team::Red)) == Some(
            core::cmp::Ordering::Less,
        ),
        value_order(Value::Win(Team::Red), Value::Win(Team::Red)) == Some(
            core::cmp::Ordering::Equal,
        ),
        value_order(Value::Win(Team::Green), Value::Win(Team::Green)) == Some(
            core::cmp::Ordering::Equal,
        ),
{
}

/// Saturation of an unbounded integer into the 64-bit range.
pub open spec fn sat64(x: int) -> int {
    if x > i64::MAX {
        i64::MAX as int
    } else if x < i64::MIN {
        i64::MIN as int
    } else {
        x
    }
}

/// Saturating addition.
pub open spec fn add_sat(a: int, b: int) -> int {
    sat64(a + b)
}

/// Saturating addition of two 64-bit integers.
pub fn sat_add(a: i64, b: i64) -> (r: i64)
    ensures
        r as int == add_sat(a as int, b as int),
{
    if b >= 0 {
        if a > i64::MAX - b {
            i64::MAX
        } else {
            a + b
        }
    } else {
        if a < i64::MIN - b {
            i64::MIN
        } else {
            a + b
        }
    }
}

/// The evaluation weights: a per-piece value, per-direction arrow values,
/// and three positional weight tables for each team (standing, simple-step
/// destination, jump destination).
#[derive(Clone)]
pub struct EvalData {
    pub octi_value: i64,
    pub red_arrow_values: Vec<i64>,
    pub green_arrow_values: Vec<i64>,
    pub red_position: Matrix<i64>,
    pub green_position: Matrix<i64>,
    pub red_simple_move: Matrix<i64>,
    pub green_simple_move: Matrix<i64>,
    pub red_jump_move: Matrix<i64>,
    pub green_jump_move: Matrix<i64>,
}

/// A weight table sized to the playing area.
pub open spec fn grid_matrix_wf(m: Matrix<i64>) -> bool {
    m.wf() && m.width == 6 && m.height == 7
}

impl EvalData {
    /// Eight arrow values per team, and each table sized to the board.
    pub open spec fn wf(&self) -> bool {
        &&& self.red_arrow_values@.len() == 8
        &&& self.green_arrow_values@.len() == 8
        &&& grid_matrix_wf(self.red_position)
        &&& grid_matrix_wf(self.green_position)
        &&& grid_matrix_wf(self.red_simple_move)
        &&& grid_matrix_wf(self.green_simple_move)
        &&& grid_matrix_wf(self.red_jump_move)
        &&& grid_matrix_wf(self.green_jump_move)
    }

    /// Builds a weight set, rejecting tables of the wrong shape.
    pub fn new(
        octi_value: i64,
        red_arrow_values: Vec<i64>,
        green_arrow_values: Vec<i64>,
        red_position: Matrix<i64>,
        green_position: Matrix<i64>,
        red_simple_move: Matrix<i64>,
        green_simple_move: Matrix<i64>,
        red_jump_move: Matrix<i64>,
        green_jump_move: Matrix<i64>,
    ) -> (r: Result<EvalData, String>)
        ensures
            r is Ok <==> (red_arrow_values@.len() == 8 && green_arrow_values@.len() == 8
                && grid_matrix_wf(red_position) && grid_matrix_wf(green_position)
                && grid_matrix_wf(red_simple_move) && grid_matrix_wf(green_simple_move)
                && grid_matrix_wf(red_jump_move) && grid_matrix_wf(green_jump_move)),
            r matches Ok(d) ==> d.wf() && d.octi_value == octi_value && d.red_arrow_values@
                == red_arrow_values@ && d.green_arrow_values@ == green_arrow_values@
                && d.red_position.arr@ == red_position.arr@ && d.green_position.arr@
                == green_position.arr@ && d.red_simple_move.arr@ == red_simple_move.arr@
                && d.green_simple_move.arr@ == green_simple_move.arr@ && d.red_jump_move.arr@
                == red_jump_move.arr@ && d.green_jump_move.arr@ == green_jump_move.arr@,
    {
        if red_arrow_values.len() != 8 || green_arrow_values.len() != 8 {
            return Err(String::from_str("arrow value tables must have eight entries"));
        }
        if !(grid_matrix_ok(&red_position) && grid_matrix_ok(&green_position) && grid_matrix_ok(
            &red_simple_move,
        ) && grid_matrix_ok(&green_simple_move) && grid_matrix_ok(&red_jump_move)
            && grid_matrix_ok(&green_jump_move)) {
            return Err(String::from_str("weight tables must be six by seven"));
        }
        Ok(
            EvalData {
                octi_value,
                red_arrow_values,
                green_arrow_values,
                red_position,
                green_position,
                red_simple_move,
                green_simple_move,
                red_jump_move,
                green_jump_move,
            },
        )
    }
}

/// Whether a weight table is sized to the playing area.
fn grid_matrix_ok(m: &Matrix<i64>) -> (r: bool)
    ensures
        r == grid_matrix_wf(*m),
{
    m.width() == 6 && m.height() == 7 && m.arr().len() == 42
}

/// The arrow value table of a team.
pub open spec fn arrow_values_of(d: EvalData, t: Team) -> Seq<i64> {
    match t {
        Team::Red => d.red_arrow_values@,
        Team::Green => d.green_arrow_values@,
    }
}

/// The standing-position weight table of a team.
pub open spec fn position_matrix_of(d: EvalData, t: Team) -> Matrix<i64> {
    match t {
        Team::Red => d.red_position,
        Team::Green => d.green_position,
    }
}

/// The simple-step destination weight table of a team.
pub open spec fn simple_matrix_of(d: EvalData, t: Team) -> Matrix<i64> {
    match t {
        Team::Red => d.red_simple_move,
        Team::Green => d.green_simple_move,
    }
}

/// The jump destination weight table of a team.
pub open spec fn jump_matrix_of(d: EvalData, t: Team) -> Matrix<i64> {
    match t {
        Team::Red => d.red_jump_move,
        Team::Green => d.green_jump_move,
    }
}

/// The entry of a grid-sized table at a position.
pub open spec fn mat_at(m: Matrix<i64>, pos: Position) -> int {
    m.arr@[pos.0 + pos.1 * 6] as int
}

/// Adding a piece's active-arrow values into an accumulator, low directions
/// first.
pub open spec fn arrows_into(acc: int, m: u8, ws: Seq<i64>, k: nat) -> int
    decreases k,
{
    if k == 0 {
        acc
    } else {
        let prev = arrows_into(acc, m, ws, (k - 1) as nat);
        if mask_bit(m, (k - 1) as usize) {
            add_sat(prev, ws[k - 1] as int)
        } else {
            prev
        }
    }
}

/// Adding one piece's static worth into an accumulator: its intrinsic
/// value, its active-arrow values, and its standing-position weight.
pub open spec fn octi_into(acc: int, o: Octi, d: EvalData) -> int {
    let a1 = add_sat(acc, d.octi_value as int);
    let a2 = arrows_into(a1, o.arrs, arrow_values_of(d, o.team), 8);
    add_sat(a2, mat_at(position_matrix_of(d, o.team), o.pos))
}

/// The static pass over the pieces in cell order, each added into its own
/// team's total.
pub open spec fn static_into(accr: int, accg: int, os: Seq<Octi>, d: EvalData) -> (int, int)
    decreases os.len(),
{
    if os.len() == 0 {
        (accr, accg)
    } else {
        let o = os.first();
        if o.team == Team::Red {
            static_into(octi_into(accr, o, d), accg, os.drop_first(), d)
        } else {
            static_into(accr, octi_into(accg, o, d), os.drop_first(), d)
        }
    }
}

/// The destination a sequence of events leaves the moving piece on,
/// starting from its original cell.
pub open spec fn dest_fold(acc: Position, es: Seq<BoardEvent>) -> Position
    decreases es.len(),
{
    if es.len() == 0 {
        acc
    } else {
        dest_fold(
            match es.first() {
                BoardEvent::NewOctiPosition(_, t) => t,
                _ => acc,
            },
            es.drop_first(),
        )
    }
}

/// The starting position a move names.
pub open spec fn move_pos_of(m: OctiMove) -> Position {
    match m {
        OctiMove::Arrow(p, _) => p,
        OctiMove::Move(p, _) => p,
    }
}

/// The arrow chain of a movement request.
pub open spec fn move_arrs_of(m: OctiMove) -> Seq<Arrow> {
    match m {
        OctiMove::Arrow(_, _) => Seq::empty(),
        OctiMove::Move(_, a) => a@,
    }
}

/// A board state with the turn handed to the given side.
pub open spec fn with_turn(v: BoardView, t: Team) -> BoardView {
    BoardView { turn: t, ..v }
}

/// A well-formed batch of mobility candidates: movement moves, legal on the
/// given state, each with at least one arrow.
pub open spec fn mobility_moves_ok(v: BoardView, ms: Seq<OctiMove>) -> bool {
    forall|i: int|
        0 <= i < ms.len() ==> (#[trigger] ms[i] matches OctiMove::Move(_, _)) && move_ok(v, ms[i])
            && move_arrs_of(ms[i]).len() >= 1
}

/// A batch of mobility candidates that misses nothing the generator owes:
/// every movement chain that is legal prefix by prefix and that the
/// repetition guard does not cut appears in it.
pub open spec fn mobility_moves_complete(v: BoardView, ms: Seq<OctiMove>) -> bool {
    forall|p: Position, c: Seq<Arrow>|
        #[trigger] survives_guard(v, p, c) ==> yields_chain(ms, p, c)
}

/// A batch holding only what the generator owes: every entry's chain is
/// legal prefix by prefix and uncut by the repetition guard.
pub open spec fn mobility_moves_surviving(v: BoardView, ms: Seq<OctiMove>) -> bool {
    forall|i: int|
        0 <= i < ms.len() ==> (#[trigger] ms[i] matches OctiMove::Move(q, c) ==> survives_guard(
            v,
            q,
            c@,
        ))
}

/// A batch that plays no candidate twice.
pub open spec fn mobility_moves_distinct(ms: Seq<OctiMove>) -> bool {
    forall|i: int, j: int| 0 <= i < j < ms.len() ==> ms[i] != ms[j]
}

/// The one-ply mobility pass over a batch of movement moves: each move's
/// destination weight is added into its mover's team total; a move that
/// wins the game for the scanned side, when that side is also the side the
/// whole evaluation is for, ends the pass with that winner.
pub open spec fn mobility_into(
    v: BoardView,
    ms: Seq<OctiMove>,
    cur: Team,
    d: EvalData,
    accr: int,
    accg: int,
) -> Result<(int, int), Team>
    decreases ms.len(),
{
    if ms.len() == 0 {
        Ok((accr, accg))
    } else {
        let m = ms.first();
        let pos = move_pos_of(m);
        if !move_ok(v, m) || !v.occ.contains_key(pos) {
            mobility_into(v, ms.drop_first(), cur, d, accr, accg)
        } else {
            let o = v.occ[pos];
            let es = move_events_spec(v, m).unwrap();
            let v2 = after_move(v, es);
            if winner_view(v2) matches Some(w) && w == cur && o.team == cur {
                Err(cur)
            } else {
                let np = dest_fold(pos, es);
                let simple = move_arrs_of(m).len() == 1 && -1 <= np.0 - pos.0 <= 1 && -1 <= np.1
                    - pos.1 <= 1;
                let w0 = if simple {
                    mat_at(simple_matrix_of(d, o.team), np)
                } else {
                    mat_at(jump_matrix_of(d, o.team), np)
                };
                if o.team == Team::Red {
                    mobility_into(v, ms.drop_first(), cur, d, add_sat(accr, w0), accg)
                } else {
                    mobility_into(v, ms.drop_first(), cur, d, accr, add_sat(accg, w0))
                }
            }
        }
    }
}

/// Unrolling of the mobility pass at the end of a batch.
pub proof fn lemma_mobility_push(
    v: BoardView,
    ms: Seq<OctiMove>,
    m: OctiMove,
    cur: Team,
    d: EvalData,
    accr: int,
    accg: int,
)
    ensures
        mobility_into(v, ms.push(m), cur, d, accr, accg) == (match mobility_into(
            v,
            ms,
            cur,
            d,
            accr,
            accg,
        ) {
            Ok((r2, g2)) => mobility_into(v, seq![m], cur, d, r2, g2),
            Err(w) => Err::<(int, int), Team>(w),
        }),
    decreases ms.len(),
{
    if ms.len() == 0 {
        assert(ms.push(m) =~= seq![m]);
    } else {
        assert(ms.push(m).first() == ms.first());
        assert(ms.push(m).drop_first() =~= ms.drop_first().push(m));
        let md = ms.first();
        let pos = move_pos_of(md);
        if !move_ok(v, md) || !v.occ.contains_key(pos) {
            lemma_mobility_push(v, ms.drop_first(), m, cur, d, accr, accg);
        } else {
            let o = v.occ[pos];
            let es = move_events_spec(v, md).unwrap();
            let v2 = after_move(v, es);
            if winner_view(v2) matches Some(w) && w == cur && o.team == cur {
            } else {
                let np = dest_fold(pos, es);
                let simple = move_arrs_of(md).len() == 1 && -1 <= np.0 - pos.0 <= 1 && -1 <= np.1
                    - pos.1 <= 1;
                let w0 = if simple {
                    mat_at(simple_matrix_of(d, o.team), np)
                } else {
                    mat_at(jump_matrix_of(d, o.team), np)
                };
                if o.team == Team::Red {
                    lemma_mobility_push(v, ms.drop_first(), m, cur, d, add_sat(accr, w0), accg);
                } else {
                    lemma_mobility_push(v, ms.drop_first(), m, cur, d, accr, add_sat(accg, w0));
                }
            }
        }
    }
}


/// Saturating subtraction of two 64-bit integers.
pub fn sat_sub(a: i64, b: i64) -> (r: i64)
    ensures
        r as int == sat64(a - b),
{
    if b <= 0 {
        if a > i64::MAX + b {
            i64::MAX
        } else {
            a - b
        }
    } else {
        if a < i64::MIN + b {
            i64::MIN
        } else {
            a - b
        }
    }
}

/// Every relocation target in an applicable event sequence lies on the
/// board, so the destination the events leave the mover on does too.
proof fn lemma_dest_fold_in_bounds(v: BoardView, es: Seq<BoardEvent>, acc: Position)
    requires
        crate::board::model::events_ok(v, es),
        crate::board::in_bounds_of(v.bounds, acc),
    ensures
        crate::board::in_bounds_of(v.bounds, dest_fold(acc, es)),
    decreases es.len(),
{
    if es.len() > 0 {
        let v2 = crate::board::model::apply_event(v, es.first());
        assert(v2.bounds == v.bounds);
        match es.first() {
            BoardEvent::NewOctiPosition(_, t) => {
                lemma_dest_fold_in_bounds(v2, es.drop_first(), t);
            },
            _ => {
                lemma_dest_fold_in_bounds(v2, es.drop_first(), acc);
            },
        }
    }
}

/// The static pass over the board: every piece's intrinsic value, active
/// arrow values, and standing-position weight, summed into its team's
/// total.
fn static_pass(board: &Board, data: &EvalData) -> (r: (i64, i64))
    requires
        board.wf(),
        data.wf(),
    ensures
        ({
            let (rr, gg) = static_into(0, 0, cells_list(board.octis@), *data);
            r.0 as int == rr && r.1 as int == gg
        }),
{
    proof {
        assert(board.octis@.take(42) =~= board.octis@);
    }
    let all = board.octis();
    let ghost os = all@;
    let mut red_eval: i64 = 0;
    let mut green_eval: i64 = 0;
    let mut k: usize = 0;
    proof {
        assert(os.skip(0) =~= os);
    }
    while k < all.len()
        invariant
            board.wf(),
            data.wf(),
            all@ == os,
            os == cells_list(board.octis@),
            k <= os.len(),
            static_into(0, 0, os, *data) == static_into(
                red_eval as int,
                green_eval as int,
                os.skip(k as int),
                *data,
            ),
        decreases os.len() - k,
    {
        proof {
            assert(os.skip(k as int).first() == os[k as int]);
            assert(os.skip(k as int).drop_first() =~= os.skip(k as int + 1));
            lemma_cells_list_mem(board.octis@, k as int);
            let idx = choose|idx: int|
                0 <= idx < board.octis@.len() && board.octis@[idx] == Some(os[k as int]);
            lemma_index_grid(idx);
        }
        let o = all[k];
        let base: i64 = match o.team {
            Team::Red => red_eval,
            Team::Green => green_eval,
        };
        let a1 = sat_add(base, data.octi_value);
        let ws: &Vec<i64> = match o.team {
            Team::Red => &data.red_arrow_values,
            Team::Green => &data.green_arrow_values,
        };
        let mut a2 = a1;
        let mut b: usize = 0;
        while b < 8
            invariant
                ws@.len() == 8,
                ws@ == arrow_values_of(*data, o.team),
                b <= 8,
                a2 as int == arrows_into(a1 as int, o.arrs, ws@, b as nat),
            decreases 8 - b,
        {
            if (o.arrs >> (b as u8)) & 1 == 1 {
                a2 = sat_add(a2, ws[b]);
            }
            b = b + 1;
        }
        let pm: &Matrix<i64> = match o.team {
            Team::Red => &data.red_position,
            Team::Green => &data.green_position,
        };
        proof {
            assert(pm.pos_in_range(o.pos));
        }
        let w0 = *pm.get(&o.pos).unwrap();
        let a3 = sat_add(a2, w0);
        proof {
            assert(a3 as int == octi_into(base as int, os[k as int], *data));
        }
        match o.team {
            Team::Red => {
                red_eval = a3;
            },
            Team::Green => {
                green_eval = a3;
            },
        }
        k = k + 1;
    }
    proof {
        assert(os.skip(os.len() as int) =~= Seq::<Octi>::empty());
    }
    (red_eval, green_eval)
}

/// The one-ply scan for one side: every movement move the generator yields
/// is played once, and its destination weight credited to the mover's team;
/// a move that immediately wins for the side under evaluation ends the scan
/// with that winner.
fn mobility_pass(board: &Board, cur_team: Team, data: &EvalData, accr: i64, accg: i64) -> (r:
    Result<(i64, i64), Team>)
    requires
        board.wf(),
        data.wf(),
    ensures
        r matches Ok(t2) ==> exists|ms: Seq<OctiMove>|
            mobility_moves_ok(board.bview(), ms) && mobility_moves_complete(board.bview(), ms)
                && mobility_moves_surviving(board.bview(), ms) && mobility_moves_distinct(ms)
                && mobility_into(
                board.bview(),
                ms,
                cur_team,
                *data,
                accr as int,
                accg as int,
            ) == Ok::<(int, int), Team>((t2.0 as int, t2.1 as int)),
        r matches Err(w) ==> w == cur_team && exists|ms: Seq<OctiMove>|
            mobility_moves_ok(board.bview(), ms) && mobility_into(
                board.bview(),
                ms,
                cur_team,
                *data,
                accr as int,
                accg as int,
            ) == Err::<(int, int), Team>(cur_team),
{
    let ghost v = board.bview();
    proof {
        board.wf_view();
    }
    let mut it = new_move_octi_move_iterator(board);
    let mut red_eval = accr;
    let mut green_eval = accg;
    let ghost mut ms: Seq<OctiMove> = Seq::empty();
    loop
        invariant
            it.wf(),
            it.src_view() == v,
            ms == it.yielded@,
            board.wf(),
            data.wf(),
            v == board.bview(),
            view_wf(v),
            mobility_moves_ok(v, ms),
            mobility_moves_surviving(v, ms),
            mobility_moves_distinct(ms),
            mobility_into(v, ms, cur_team, *data, accr as int, accg as int) == Ok::<
                (int, int),
                Team,
            >((red_eval as int, green_eval as int)),
        decreases it.measure(),
    {
        let m = match it.next() {
            Some(m) => m,
            None => {
                return Ok((red_eval, green_eval));
            },
        };
        let ghost ms_before = ms;
        let ghost accr0 = red_eval as int;
        let ghost accg0 = green_eval as int;
        let pos = match &m {
            OctiMove::Move(p, _) => *p,
            OctiMove::Arrow(p, _) => *p,
        };
        proof {
            assert(v.occ.contains_key(pos));
        }
        let octi = *board.get_octi_by_pos(&pos).unwrap();
        let events = match board.move_events(&m) {
            Ok(es) => es,
            Err(_) => {
                return Ok((red_eval, green_eval));
            },
        };
        let mut board_clone = board.clone();
        let moved = board_clone.make_move(&m);
        proof {
            assert(moved is Ok);
        }
        let game_winner = winner(&board_clone);
        let ghost es = events@;
        let ghost v2 = after_move(v, es);
        let mut is_win = false;
        match game_winner {
            Some(w) => {
                if w == cur_team && octi.team == cur_team {
                    is_win = true;
                }
            },
            None => (),
        }
        if is_win {
            proof {
                lemma_mobility_push(v, ms_before, m, cur_team, *data, accr as int, accg as int);
                assert(seq![m].first() == m);
                assert(mobility_into(v, seq![m], cur_team, *data, accr0, accg0) == Err::<
                    (int, int),
                    Team,
                >(cur_team));
                ms = ms_before.push(m);
                assert(mobility_moves_ok(v, ms));
            }
            return Err(cur_team);
        }
        let mut np = pos;
        let mut i: usize = 0;
        proof {
            assert(es.skip(0) =~= es);
        }
        while i < events.len()
            invariant
                events@ == es,
                i <= es.len(),
                dest_fold(np, es.skip(i as int)) == dest_fold(pos, es),
            decreases es.len() - i,
        {
            proof {
                assert(es.skip(i as int).first() == es[i as int]);
                assert(es.skip(i as int).drop_first() =~= es.skip(i as int + 1));
            }
            match &events[i] {
                BoardEvent::NewOctiPosition(_, t) => {
                    np = *t;
                },
                _ => (),
            }
            i = i + 1;
        }
        proof {
            assert(es.skip(es.len() as int) =~= Seq::<BoardEvent>::empty());
            assert(np == dest_fold(pos, es));
            lemma_move_events_ok(v, m);
            lemma_dest_fold_in_bounds(v, es, pos);
            assert(in_grid(np));
        }
        let chain_len: usize = match &m {
            OctiMove::Move(_, c) => c.len(),
            OctiMove::Arrow(_, _) => 0,
        };
        let dx = np.0 - pos.0;
        let dy = np.1 - pos.1;
        let simple = chain_len == 1 && -1 <= dx && dx <= 1 && -1 <= dy && dy <= 1;
        let mm: &Matrix<i64> = if simple {
            match octi.team {
                Team::Red => &data.red_simple_move,
                Team::Green => &data.green_simple_move,
            }
        } else {
            match octi.team {
                Team::Red => &data.red_jump_move,
                Team::Green => &data.green_jump_move,
            }
        };
        proof {
            assert(mm.pos_in_range(np));
        }
        let w0 = *mm.get(&np).unwrap();
        match octi.team {
            Team::Red => {
                red_eval = sat_add(red_eval, w0);
            },
            Team::Green => {
                green_eval = sat_add(green_eval, w0);
            },
        }
        proof {
            lemma_mobility_push(v, ms_before, m, cur_team, *data, accr as int, accg as int);
            assert(seq![m].first() == m);
            assert(seq![m].drop_first() =~= Seq::<OctiMove>::empty());
            let accr1: int = if octi.team == Team::Red {
                add_sat(accr0, w0 as int)
            } else {
                accr0
            };
            let accg1: int = if octi.team == Team::Green {
                add_sat(accg0, w0 as int)
            } else {
                accg0
            };
            assert(mobility_into(v, Seq::<OctiMove>::empty(), cur_team, *data, accr1, accg1)
                == Ok::<(int, int), Team>((accr1, accg1)));
            assert(mobility_into(v, seq![m], cur_team, *data, accr0, accg0) == Ok::<
                (int, int),
                Team,
            >((red_eval as int, green_eval as int)));
            ms = ms_before.push(m);
            assert(mobility_moves_ok(v, ms));
        }
    }
}

/// The score of a non-terminal board under the given weights: for each
/// hypothetical side to move, a batch holding every owed movement chain
/// and nothing else, each once, whose static and mobility totals produce
/// it. The batches' contents are pinned; only the order the entries are
/// summed in is left open, which matters only at the saturation bounds.
pub open spec fn eval_score_witness(v: BoardView, cells: Seq<Option<Octi>>, d: EvalData, s: int) -> bool {
    exists|rm: Seq<OctiMove>, gm: Seq<OctiMove>|
        {
            let (sr, sg) = static_into(0, 0, cells_list(cells), d);
            &&& #[trigger] mobility_moves_ok(with_turn(v, Team::Red), rm)
            &&& #[trigger] mobility_moves_ok(with_turn(v, Team::Green), gm)
            &&& mobility_moves_complete(with_turn(v, Team::Red), rm)
            &&& mobility_moves_complete(with_turn(v, Team::Green), gm)
            &&& mobility_moves_surviving(with_turn(v, Team::Red), rm)
            &&& mobility_moves_surviving(with_turn(v, Team::Green), gm)
            &&& mobility_moves_distinct(rm)
            &&& mobility_moves_distinct(gm)
            &&& (match mobility_into(with_turn(v, Team::Red), rm, v.turn, d, sr, sg) {
                Ok((r1, g1)) => match mobility_into(
                    with_turn(v, Team::Green),
                    gm,
                    v.turn,
                    d,
                    r1,
                    g1,
                ) {
                    Ok((r2, g2)) => s == sat64(r2 - g2),
                    Err(_) => false,
                },
                Err(_) => false,
            })
        }
}

/// A winning short-circuit of a non-terminal board under the given
/// weights: some batches of legal movement moves on which the one-ply
/// scan finds an immediate win for the side to move. A scan that stops at
/// a winning move has not walked the whole batch, so these batches stay
/// existential.
pub open spec fn eval_win_witness(v: BoardView, cells: Seq<Option<Octi>>, d: EvalData) -> bool {
    exists|rm: Seq<OctiMove>, gm: Seq<OctiMove>|
        {
            let (sr, sg) = static_into(0, 0, cells_list(cells), d);
            &&& #[trigger] mobility_moves_ok(with_turn(v, Team::Red), rm)
            &&& #[trigger] mobility_moves_ok(with_turn(v, Team::Green), gm)
            &&& (match mobility_into(with_turn(v, Team::Red), rm, v.turn, d, sr, sg) {
                Ok((r1, g1)) => mobility_into(with_turn(v, Team::Green), gm, v.turn, d, r1, g1)
                    == Err::<(int, int), Team>(v.turn),
                Err(w) => w == v.turn,
            })
        }
}

/// A cell vector that carries exactly the pieces of a board state, each
/// in its own cell. A state determines its cell vector uniquely.
pub open spec fn cells_wf_for(w: BoardView, cells: Seq<Option<Octi>>) -> bool {
    &&& cells.len() == 42
    &&& cells_occ(cells) == w.occ
    &&& forall|i: int|
        0 <= i < 42 ==> (#[trigger] cells[i] matches Some(o) ==> o.pos == pos_at(i))
}

/// The evaluator's verdict on a state: a finished game scores as its
/// winner's sentinel; otherwise a finite score carries the static and
/// mobility totals of the state's own cells and of batches holding exactly
/// the owed movement chains, and a win sentinel names the side to move
/// with a winning one-ply witness.
pub open spec fn leaf_value_of(w: BoardView, d: EvalData, val: Value) -> bool {
    match winner_view(w) {
        Some(t) => val == Value::Win(t),
        None => match val {
            Value::Score(s) => exists|cells: Seq<Option<Octi>>|
                #[trigger] cells_wf_for(w, cells) && eval_score_witness(w, cells, d, s as int),
            Value::Win(t) => t == w.turn && exists|cells: Seq<Option<Octi>>|
                #[trigger] cells_wf_for(w, cells) && eval_win_witness(w, cells, d),
        },
    }
}

/// The zero-sum evaluation of a board from Red's perspective. A finished
/// game scores as its winner's sentinel. Otherwise every piece's intrinsic,
/// arrow and positional worth is summed per team, each side's one-ply
/// mobility bonuses are added, and the result is Red's total minus Green's;
/// if the scan finds a move by the side to move that wins at once, its win
/// sentinel is returned instead.
pub fn board_eval(board: &Board, eval_data: &EvalData) -> (r: Value)
    requires
        board.wf(),
        eval_data.wf(),
    ensures
        winner_view(board.bview()) matches Some(t) ==> r == Value::Win(t),
        winner_view(board.bview()) is None ==> (r matches Value::Win(t) ==> t
            == board.bview().turn && eval_win_witness(board.bview(), board.octis@, *eval_data)),
        winner_view(board.bview()) is None ==> (r matches Value::Score(s)
            ==> eval_score_witness(board.bview(), board.octis@, *eval_data, s as int)),
        leaf_value_of(board.bview(), *eval_data, r),
{
    proof {
        assert(cells_wf_for(board.bview(), board.octis@)) by {
            assert(cells_occ(board.octis@) == board.bview().occ);
        }
    }
    let ghost v = board.bview();
    match winner(board) {
        Some(game_winner) => {
            return Value::Win(game_winner);
        },
        None => (),
    }
    let cur_team = board.turn();
    let (sr, sg) = static_pass(board, eval_data);
    let mut red_board = board.clone();
    red_board.set_turn(Team::Red);
    proof {
        assert(red_board.bview() =~= with_turn(v, Team::Red));
    }
    let first = mobility_pass(&red_board, cur_team, eval_data, sr, sg);
    let (r1, g1) = match first {
        Ok(t) => t,
        Err(w) => {
            proof {
                let rm = choose|msx: Seq<OctiMove>|
                    mobility_moves_ok(with_turn(v, Team::Red), msx) && mobility_into(
                        with_turn(v, Team::Red),
                        msx,
                        cur_team,
                        *eval_data,
                        sr as int,
                        sg as int,
                    ) == Err::<(int, int), Team>(cur_team);
                let gm = Seq::<OctiMove>::empty();
                assert(mobility_moves_ok(with_turn(v, Team::Green), gm));
                assert(eval_win_witness(v, board.octis@, *eval_data));
            }
            return Value::Win(w);
        },
    };
    let mut green_board = board.clone();
    green_board.set_turn(Team::Green);
    proof {
        assert(green_board.bview() =~= with_turn(v, Team::Green));
    }
    let second = mobility_pass(&green_board, cur_team, eval_data, r1, g1);
    let (r2, g2) = match second {
        Ok(t) => t,
        Err(w) => {
            proof {
                let rm = choose|msx: Seq<OctiMove>|
                    mobility_moves_ok(with_turn(v, Team::Red), msx) && mobility_into(
                        with_turn(v, Team::Red),
                        msx,
                        cur_team,
                        *eval_data,
                        sr as int,
                        sg as int,
                    ) == Ok::<(int, int), Team>((r1 as int, g1 as int));
                let gm = choose|msx: Seq<OctiMove>|
                    mobility_moves_ok(with_turn(v, Team::Green), msx) && mobility_into(
                        with_turn(v, Team::Green),
                        msx,
                        cur_team,
                        *eval_data,
                        r1 as int,
                        g1 as int,
                    ) == Err::<(int, int), Team>(cur_team);
                assert(eval_win_witness(v, board.octis@, *eval_data));
            }
            return Value::Win(w);
        },
    };
    let s = sat_sub(r2, g2);
    proof {
        let rm = choose|msx: Seq<OctiMove>|
            mobility_moves_ok(with_turn(v, Team::Red), msx) && mobility_into(
                with_turn(v, Team::Red),
                msx,
                cur_team,
                *eval_data,
                sr as int,
                sg as int,
            ) == Ok::<(int, int), Team>((r1 as int, g1 as int));
        let gm = choose|msx: Seq<OctiMove>|
            mobility_moves_ok(with_turn(v, Team::Green), msx) && mobility_into(
                with_turn(v, Team::Green),
                msx,
                cur_team,
                *eval_data,
                r1 as int,
                g1 as int,
            ) == Ok::<(int, int), Team>((r2 as int, g2 as int));
        assert(eval_score_witness(v, board.octis@, *eval_data, s as int));
    }
    Value::Score(s)
}

} // verus!
