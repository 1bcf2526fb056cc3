//! The mathematical model of a board: an abstract view, the semantics of
//! board events, and the derivation of events from a move request.
//!
//! Both board representations (the rules board and the flat search board)
//! expose the same `BoardView`, so move validation, event application and
//! their proofs are shared.

use vstd::prelude::*;

use crate::board::{
    arrow_ok, dir_of, has_arr_spec, in_bounds_of, lemma_popcount_bounds, opposite, popcount, Arrow,
    BoardBounds, BoardEvent, MoveError, Octi, OctiMove, Position, Team,
};

verus! {

/// Abstract state of a board: whose turn it is, the playing area, the pieces
/// keyed by the position they occupy, and each team's remaining arrow budget.
#[verifier::ext_equal]
pub struct BoardView {
    pub turn: Team,
    pub bounds: BoardBounds,
    pub occ: Map<Position, Octi>,
    pub red_arrows: int,
    pub green_arrows: int,
}

/// A team's remaining arrow budget.
pub open spec fn budget_of(v: BoardView, t: Team) -> int {
    match t {
        Team::Red => v.red_arrows,
        Team::Green => v.green_arrows,
    }
}

/// Whether a position lies on the playing area of this board.
pub open spec fn view_in_bounds(v: BoardView, p: Position) -> bool {
    in_bounds_of(v.bounds, p)
}

/// Well-formedness of a board view: every piece knows the position it is
/// keyed by (so the position index is the exact inverse of the piece
/// positions, and no two pieces share a position), piece identities are
/// unique, every piece stands on the playing area, the playing area is a
/// small rectangle, and budgets are not negative.
pub open spec fn view_wf(v: BoardView) -> bool {
    &&& forall|p: Position| #[trigger] v.occ.contains_key(p) ==> v.occ[p].pos == p
    &&& forall|p: Position| #[trigger] v.occ.contains_key(p) ==> view_in_bounds(v, p)
    &&& forall|p1: Position, p2: Position|
        #![trigger v.occ[p1], v.occ[p2]]
        v.occ.contains_key(p1) && v.occ.contains_key(p2) && p1 != p2 ==> v.occ[p1].id
            != v.occ[p2].id
    &&& -1000 <= v.bounds.0.0 <= v.bounds.1.0 <= 1000
    &&& -1000 <= v.bounds.0.1 <= v.bounds.1.1 <= 1000
    &&& 0 <= v.red_arrows
    &&& 0 <= v.green_arrows
}

/// Whether one event can be applied to a board in this state. Event
/// derivation only ever produces sequences of applicable events; applying an
/// inapplicable event would mean the board was corrupted.
pub open spec fn event_ok(v: BoardView, e: BoardEvent) -> bool {
    match e {
        BoardEvent::NewArrow(pos, arr) => v.occ.contains_key(pos) && arrow_ok(arr)
            && !has_arr_spec(v.occ[pos], arr) && budget_of(v, v.occ[pos].team) > 0,
        BoardEvent::NewOctiPosition(from, to) => v.occ.contains_key(from) && view_in_bounds(v, to)
            && (to == from || !v.occ.contains_key(to)),
        BoardEvent::OctiEaten(pos) => v.occ.contains_key(pos),
        BoardEvent::Div => true,
    }
}

/// The effect of one event on the board state.
pub open spec fn apply_event(v: BoardView, e: BoardEvent) -> BoardView {
    match e {
        BoardEvent::NewArrow(pos, arr) => {
            let o = v.occ[pos];
            let o2 = Octi { arrs: o.arrs | (1u8 << (arr.0 as u8)), ..o };
            BoardView {
                occ: v.occ.insert(pos, o2),
                red_arrows: if o.team == Team::Red {
                    v.red_arrows - 1
                } else {
                    v.red_arrows
                },
                green_arrows: if o.team == Team::Green {
                    v.green_arrows - 1
                } else {
                    v.green_arrows
                },
                ..v
            }
        },
        BoardEvent::NewOctiPosition(from, to) => {
            let o = v.occ[from];
            let o2 = Octi { pos: to, ..o };
            BoardView { occ: v.occ.remove(from).insert(to, o2), ..v }
        },
        BoardEvent::OctiEaten(pos) => {
            let o = v.occ[pos];
            BoardView {
                occ: v.occ.remove(pos),
                red_arrows: if o.team == Team::Green {
                    v.red_arrows + popcount(o.arrs)
                } else {
                    v.red_arrows
                },
                green_arrows: if o.team == Team::Red {
                    v.green_arrows + popcount(o.arrs)
                } else {
                    v.green_arrows
                },
                ..v
            }
        },
        BoardEvent::Div => v,
    }
}

/// The effect of a sequence of events, applied in order.
pub open spec fn apply_events(v: BoardView, es: Seq<BoardEvent>) -> BoardView
    decreases es.len(),
{
    if es.len() == 0 {
        v
    } else {
        apply_events(apply_event(v, es.first()), es.drop_first())
    }
}

/// Whether a sequence of events is applicable in order.
pub open spec fn events_ok(v: BoardView, es: Seq<BoardEvent>) -> bool
    decreases es.len(),
{
    es.len() == 0 || (event_ok(v, es.first()) && events_ok(
        apply_event(v, es.first()),
        es.drop_first(),
    ))
}

/// Position displaced by one step.
pub open spec fn pos_plus(p: Position, d: Position) -> Position {
    Position((p.0 + d.0) as i32, (p.1 + d.1) as i32)
}

/// Position displaced by two steps.
pub open spec fn pos_plus2(p: Position, d: Position) -> Position {
    Position((p.0 + 2 * d.0) as i32, (p.1 + 2 * d.1) as i32)
}

/// Derivation of the events of an arrow placement, or the reason it is
/// rejected. The checks happen in this order: the piece must exist, its team
/// must still have budget, it must be that team's turn, the arrow index must
/// denote a direction not yet active on the piece.
pub open spec fn arrow_events(v: BoardView, pos: Position, arr: Arrow) -> Result<
    Seq<BoardEvent>,
    MoveError,
> {
    if !v.occ.contains_key(pos) {
        Err(MoveError::NoOcti(pos))
    } else {
        let team = v.occ[pos].team;
        if budget_of(v, team) == 0 {
            Err(MoveError::NoArrows(team))
        } else if team != v.turn {
            Err(MoveError::WrongTurn(v.turn, team))
        } else if !arrow_ok(arr) {
            Err(MoveError::ArrowNotOnOcti(pos, arr))
        } else if has_arr_spec(v.occ[pos], arr) {
            Err(MoveError::ArrowAlreadyActive(pos, arr))
        } else {
            Ok(seq![BoardEvent::NewArrow(pos, arr)])
        }
    }
}

/// Derivation of the events of a capture-jump chain starting at `cur`, with
/// the set of midpoints already captured earlier in the chain. Each hop
/// requires its arrow on the moving piece, an in-bounds landing cell that is
/// empty (or the vacated original position), and a piece on the midpoint; an
/// enemy midpoint not yet captured in this chain is eaten. Validation reads
/// the board as it stood before the move.
pub open spec fn chain_events(
    v: BoardView,
    orig: Position,
    octi: Octi,
    cur: Position,
    arrs: Seq<Arrow>,
    eaten: Set<Position>,
) -> Result<Seq<BoardEvent>, MoveError>
    decreases arrs.len(),
{
    if arrs.len() == 0 {
        Ok(Seq::empty())
    } else {
        let arr = arrs.first();
        if !has_arr_spec(octi, arr) {
            Err(MoveError::ArrowNotOnOcti(orig, arr))
        } else {
            let d = dir_of(arr);
            let mid = pos_plus(cur, d);
            let next = pos_plus2(cur, d);
            if !view_in_bounds(v, next) {
                Err(MoveError::OutOfBounds(next))
            } else if !v.occ.contains_key(mid) {
                Err(MoveError::NoMidpointOcti(mid))
            } else if v.occ.contains_key(next) && next != orig {
                Err(MoveError::Blocked(next))
            } else {
                let capture = v.occ[mid].team != octi.team && !eaten.contains(mid);
                let hop: Seq<BoardEvent> = if capture {
                    seq![
                        BoardEvent::OctiEaten(mid),
                        BoardEvent::NewOctiPosition(cur, next),
                        BoardEvent::Div,
                    ]
                } else {
                    seq![BoardEvent::NewOctiPosition(cur, next), BoardEvent::Div]
                };
                let eaten2 = if capture {
                    eaten.insert(mid)
                } else {
                    eaten
                };
                match chain_events(v, orig, octi, next, arrs.drop_first(), eaten2) {
                    Ok(rest) => Ok(hop + rest),
                    Err(e) => Err(e),
                }
            }
        }
    }
}

/// Whether a movement request is a simple step: a single arrow held by the
/// piece, whose adjacent destination cell is on the board and empty.
pub open spec fn is_simple_step(v: BoardView, pos: Position, arrs: Seq<Arrow>) -> bool {
    arrs.len() == 1 && has_arr_spec(v.occ[pos], arrs[0]) && view_in_bounds(
        v,
        pos_plus(pos, dir_of(arrs[0])),
    ) && !v.occ.contains_key(pos_plus(pos, dir_of(arrs[0])))
}

/// Derivation of the events of a movement request: the piece must exist and
/// belong to the side to move; a simple step yields one relocation event,
/// anything else is read as a capture-jump chain.
pub open spec fn move_chain_events(v: BoardView, pos: Position, arrs: Seq<Arrow>) -> Result<
    Seq<BoardEvent>,
    MoveError,
> {
    if !v.occ.contains_key(pos) {
        Err(MoveError::NoOcti(pos))
    } else {
        let octi = v.occ[pos];
        if octi.team != v.turn {
            Err(MoveError::WrongTurn(v.turn, octi.team))
        } else if is_simple_step(v, pos, arrs) {
            Ok(seq![BoardEvent::NewOctiPosition(pos, pos_plus(pos, dir_of(arrs[0])))])
        } else {
            chain_events(v, pos, octi, pos, arrs, Set::empty())
        }
    }
}

/// Derivation of the events of any move request. This is the sole definition
/// of move validity: a move is legal exactly when this returns `Ok`.
pub open spec fn move_events_spec(v: BoardView, m: OctiMove) -> Result<
    Seq<BoardEvent>,
    MoveError,
> {
    match m {
        OctiMove::Arrow(pos, arr) => arrow_events(v, pos, arr),
        OctiMove::Move(pos, arrs) => move_chain_events(v, pos, arrs@),
    }
}

/// Whether a move request is legal on this board.
pub open spec fn move_ok(v: BoardView, m: OctiMove) -> bool {
    move_events_spec(v, m) is Ok
}

/// Whether the one-arrow movement with the given direction index is legal
/// for the piece at `p`.
pub open spec fn single_move_ok(v: BoardView, p: Position, a: int) -> bool {
    move_chain_events(v, p, seq![Arrow(a as usize)]) is Ok
}

/// Whether the movement of the given chain is legal for the piece at `p`.
pub open spec fn chain_move_ok(v: BoardView, p: Position, c: Seq<Arrow>) -> bool {
    move_chain_events(v, p, c) is Ok
}

/// Whether replaying a legal movement repeats an intermediate state: the
/// board as it stands after some hop (each hop ends in a `Div` marker)
/// recurs after a later hop of the same replay.
pub open spec fn chain_repeats_on(v: BoardView, p: Position, c: Seq<Arrow>) -> bool {
    let es = move_chain_events(v, p, c).unwrap();
    exists|i: int, j: int|
        0 <= i < j < es.len() && es[i] is Div && es[j] is Div && apply_events(v, es.take(i + 1))
            == apply_events(v, es.take(j + 1))
}

/// Every arrow of a chain whose events derive is held by the moving piece,
/// so every arrow of a legal movement denotes one of the eight directions.
proof fn lemma_chain_arrows(
    v: BoardView,
    orig: Position,
    octi: Octi,
    cur: Position,
    arrs: Seq<Arrow>,
    eaten: Set<Position>,
)
    requires
        chain_events(v, orig, octi, cur, arrs, eaten) is Ok,
    ensures
        forall|t: int| 0 <= t < arrs.len() ==> has_arr_spec(octi, #[trigger] arrs[t]),
    decreases arrs.len(),
{
    if arrs.len() > 0 {
        let arr = arrs.first();
        let d = dir_of(arr);
        let mid = pos_plus(cur, d);
        let next = pos_plus2(cur, d);
        let capture = v.occ[mid].team != octi.team && !eaten.contains(mid);
        let eaten2 = if capture {
            eaten.insert(mid)
        } else {
            eaten
        };
        lemma_chain_arrows(v, orig, octi, next, arrs.drop_first(), eaten2);
        assert forall|t: int| 0 <= t < arrs.len() implies has_arr_spec(
            octi,
            #[trigger] arrs[t],
        ) by {
            if t > 0 {
                assert(arrs[t] == arrs.drop_first()[t - 1]);
            }
        }
    }
}

/// Every arrow of a legal movement denotes one of the eight directions.
pub proof fn lemma_chain_move_arrows(v: BoardView, p: Position, c: Seq<Arrow>)
    requires
        chain_move_ok(v, p, c),
    ensures
        forall|t: int| 0 <= t < c.len() ==> arrow_ok(#[trigger] c[t]),
{
    if is_simple_step(v, p, c) {
        assert(has_arr_spec(v.occ[p], c[0]));
    } else {
        lemma_chain_arrows(v, p, v.occ[p], p, c, Set::empty());
    }
}

/// Whether the side to move has a candidate move: a legal arrow placement,
/// or a legal movement of at least one hop (by `lemma_chain_first_hop`, the
/// latter is equivalent to a legal one-hop movement existing). The empty
/// chain, though it derives no events and is never generated, is not a
/// candidate.
pub open spec fn has_candidate_move(v: BoardView) -> bool {
    ||| exists|p: Position, ar: Arrow| #[trigger] arrow_move_ok(v, p, ar)
    ||| exists|p: Position, a: int| 0 <= a < 8 && #[trigger] single_move_ok(v, p, a)
}

/// Whether the arrow placement at `p` with arrow `ar` is legal.
pub open spec fn arrow_move_ok(v: BoardView, p: Position, ar: Arrow) -> bool {
    move_ok(v, OctiMove::Arrow(p, ar))
}

/// The first hop of a legal movement chain is itself a legal one-hop
/// movement: its arrow is held, its midpoint and landing checks are the
/// same as the full chain's first hop, and an empty remainder derives
/// nothing further.
pub proof fn lemma_chain_first_hop(v: BoardView, p: Position, arrs: Seq<Arrow>)
    requires
        view_wf(v),
        move_chain_events(v, p, arrs) is Ok,
        arrs.len() >= 1,
    ensures
        0 <= arrs[0].0 < 8,
        single_move_ok(v, p, arrs[0].0 as int),
{
    let octi = v.occ[p];
    let a0 = arrs[0];
    if is_simple_step(v, p, arrs) {
        assert(has_arr_spec(octi, a0));
        assert(seq![Arrow(a0.0 as int as usize)] =~= arrs);
    } else {
        assert(chain_events(v, p, octi, p, arrs, Set::empty()) is Ok);
        assert(arrs.first() == a0);
        assert(has_arr_spec(octi, a0));
        let d = dir_of(a0);
        let mid = pos_plus(p, d);
        let next = pos_plus2(p, d);
        assert(view_in_bounds(v, next));
        assert(v.occ.contains_key(mid));
        assert(!(v.occ.contains_key(next) && next != p));
        let s1 = seq![Arrow(a0.0 as int as usize)];
        assert(s1 =~= seq![a0]);
        assert(s1.first() == a0);
        assert(s1.drop_first() =~= Seq::<Arrow>::empty());
        if is_simple_step(v, p, s1) {
        } else {
            let eaten0 = Set::<Position>::empty();
            let capture = v.occ[mid].team != octi.team && !eaten0.contains(mid);
            let eaten2 = if capture {
                eaten0.insert(mid)
            } else {
                eaten0
            };
            assert(chain_events(v, p, octi, next, s1.drop_first(), eaten2) is Ok);
            assert(chain_events(v, p, octi, p, s1, eaten0) is Ok);
        }
    }
}

/// The state after a fully applied move: its events, then the turn passes to
/// the other side.
pub open spec fn after_move(v: BoardView, es: Seq<BoardEvent>) -> BoardView {
    let v2 = apply_events(v, es);
    BoardView { turn: opposite(v.turn), ..v2 }
}

/// Applying one applicable event preserves well-formedness: on every
/// reachable board the position index stays the exact inverse of the piece
/// positions, no two pieces share a position or an identity, and every
/// piece stays on the playing area.
pub proof fn lemma_apply_event_wf(v: BoardView, e: BoardEvent)
    requires
        view_wf(v),
        event_ok(v, e),
    ensures
        view_wf(apply_event(v, e)),
{
    let v2 = apply_event(v, e);
    match e {
        BoardEvent::NewArrow(pos, arr) => {
            assert forall|p1: Position, p2: Position|
                v2.occ.contains_key(p1) && v2.occ.contains_key(p2) && p1 != p2 implies #[trigger] v2.occ[p1].id != #[trigger] v2.occ[p2].id by {
                assert(v.occ[p1].id != v.occ[p2].id);
            }
        },
        BoardEvent::NewOctiPosition(from, to) => {
            assert forall|p1: Position, p2: Position|
                v2.occ.contains_key(p1) && v2.occ.contains_key(p2) && p1 != p2 implies #[trigger] v2.occ[p1].id != #[trigger] v2.occ[p2].id by {
                let q1: Position = if p1 == to { from } else { p1 };
                let q2: Position = if p2 == to { from } else { p2 };
                assert(v.occ[q1].id != v.occ[q2].id);
            }
        },
        BoardEvent::OctiEaten(pos) => {
            lemma_popcount_bounds(v.occ[pos].arrs);
            assert forall|p1: Position, p2: Position|
                v2.occ.contains_key(p1) && v2.occ.contains_key(p2) && p1 != p2 implies #[trigger] v2.occ[p1].id != #[trigger] v2.occ[p2].id by {
                assert(v.occ[p1].id != v.occ[p2].id);
            }
        },
        BoardEvent::Div => {
        },
    }
}

/// Applying an applicable event sequence preserves well-formedness.
pub proof fn lemma_apply_events_wf(v: BoardView, es: Seq<BoardEvent>)
    requires
        view_wf(v),
        events_ok(v, es),
    ensures
        view_wf(apply_events(v, es)),
    decreases es.len(),
{
    if es.len() > 0 {
        lemma_apply_event_wf(v, es.first());
        lemma_apply_events_wf(apply_event(v, es.first()), es.drop_first());
    }
}

/// Events never change whose turn it is; only a fully applied move does.
pub proof fn lemma_apply_events_turn(v: BoardView, es: Seq<BoardEvent>)
    ensures
        apply_events(v, es).turn == v.turn,
    decreases es.len(),
{
    if es.len() > 0 {
        lemma_apply_events_turn(apply_event(v, es.first()), es.drop_first());
    }
}

/// Splitting event application at a concatenation.
pub proof fn lemma_events_concat(v: BoardView, es1: Seq<BoardEvent>, es2: Seq<BoardEvent>)
    ensures
        apply_events(v, es1 + es2) == apply_events(apply_events(v, es1), es2),
        events_ok(v, es1 + es2) == (events_ok(v, es1) && events_ok(apply_events(v, es1), es2)),
    decreases es1.len(),
{
    if es1.len() == 0 {
        assert(es1 + es2 =~= es2);
    } else {
        let v2 = apply_event(v, es1.first());
        assert((es1 + es2).first() == es1.first());
        assert((es1 + es2).drop_first() =~= es1.drop_first() + es2);
        lemma_events_concat(v2, es1.drop_first(), es2);
    }
}

/// Appending one event to an application.
pub proof fn lemma_apply_events_push(v: BoardView, es: Seq<BoardEvent>, e: BoardEvent)
    ensures
        apply_events(v, es.push(e)) == apply_event(apply_events(v, es), e),
        events_ok(v, es.push(e)) == (events_ok(v, es) && event_ok(apply_events(v, es), e)),
{
    assert(es.push(e) =~= es + seq![e]);
    lemma_events_concat(v, es, seq![e]);
    let v2 = apply_events(v, es);
    lemma_single_event(v2, e);
}

/// Unrolling of event application for a one-event sequence.
pub proof fn lemma_single_event(v: BoardView, e: BoardEvent)
    ensures
        apply_events(v, seq![e]) == apply_event(v, e),
        events_ok(v, seq![e]) == event_ok(v, e),
{
    let es = seq![e];
    assert(es.first() == e);
    assert(es.drop_first() =~= Seq::<BoardEvent>::empty());
    assert(apply_events(apply_event(v, e), Seq::<BoardEvent>::empty()) == apply_event(v, e));
    assert(events_ok(apply_event(v, e), Seq::<BoardEvent>::empty()));
}

/// The budget bookkeeping of an arrow placement: the mover's team pays one
/// arrow of budget and its piece gains one active arrow, while the other
/// team's budget and every other piece stay as they were. Together with
/// the capture transfer below, a team's budget changes only by paying for
/// an arrow or by being paid a captured piece's arrows.
pub proof fn lemma_arrow_move_budget(v: BoardView, pos: Position, arr: Arrow)
    requires
        view_wf(v),
        arrow_events(v, pos, arr) is Ok,
    ensures
        ({
            let v2 = after_move(v, arrow_events(v, pos, arr).unwrap());
            let t = v.occ[pos].team;
            &&& v2.occ.contains_key(pos)
            &&& budget_of(v2, t) == budget_of(v, t) - 1
            &&& popcount(v2.occ[pos].arrs) == popcount(v.occ[pos].arrs) + 1
            &&& budget_of(v2, opposite(t)) == budget_of(v, opposite(t))
            &&& forall|q: Position|
                q != pos ==> (#[trigger] v2.occ.contains_key(q) == v.occ.contains_key(q)
                    && (v.occ.contains_key(q) ==> v2.occ[q] == v.occ[q]))
        }),
{
    let es = arrow_events(v, pos, arr).unwrap();
    assert(es =~= seq![BoardEvent::NewArrow(pos, arr)]);
    lemma_single_event(v, BoardEvent::NewArrow(pos, arr));
    crate::board::lemma_popcount_set_bit(v.occ[pos].arrs, arr.0 as u8);
}

/// The budget bookkeeping of a capture: removing a piece pays its active
/// arrows into the opposing team's budget, and touches nothing else.
pub proof fn lemma_capture_transfers_arrows(v: BoardView, pos: Position)
    requires
        v.occ.contains_key(pos),
    ensures
        ({
            let v2 = apply_event(v, BoardEvent::OctiEaten(pos));
            let t = v.occ[pos].team;
            &&& !v2.occ.contains_key(pos)
            &&& budget_of(v2, opposite(t)) == budget_of(v, opposite(t)) + popcount(
                v.occ[pos].arrs,
            )
            &&& budget_of(v2, t) == budget_of(v, t)
            &&& forall|q: Position|
                q != pos ==> (#[trigger] v2.occ.contains_key(q) == v.occ.contains_key(q)
                    && (v.occ.contains_key(q) ==> v2.occ[q] == v.occ[q]))
        }),
{
}

/// The board state in the middle of replaying a capture chain: the moving
/// piece has been taken off `orig` and stands at `cur`, and the midpoints
/// captured so far are gone.
pub open spec fn chain_mid_occ(
    v: BoardView,
    orig: Position,
    octi: Octi,
    cur: Position,
    eaten: Set<Position>,
) -> Map<Position, Octi> {
    v.occ.remove_keys(eaten).remove(orig).insert(cur, Octi { pos: cur, ..octi })
}

/// The events a valid chain derives can be replayed in order from the
/// corresponding intermediate state.
proof fn lemma_chain_events_ok(
    v: BoardView,
    orig: Position,
    octi: Octi,
    cur: Position,
    arrs: Seq<Arrow>,
    eaten: Set<Position>,
    w: BoardView,
)
    requires
        view_wf(v),
        v.occ.contains_key(orig),
        v.occ[orig] == octi,
        view_in_bounds(v, cur),
        cur == orig || !v.occ.contains_key(cur),
        chain_events(v, orig, octi, cur, arrs, eaten) is Ok,
        w.bounds == v.bounds,
        w.occ == chain_mid_occ(v, orig, octi, cur, eaten),
    ensures
        events_ok(w, chain_events(v, orig, octi, cur, arrs, eaten).unwrap()),
    decreases arrs.len(),
{
    if arrs.len() > 0 {
        let arr = arrs.first();
        let d = dir_of(arr);
        let mid = pos_plus(cur, d);
        let next = pos_plus2(cur, d);
        let capture = v.occ[mid].team != octi.team && !eaten.contains(mid);
        let eaten2: Set<Position> = if capture {
            eaten.insert(mid)
        } else {
            eaten
        };
        let hop: Seq<BoardEvent> = if capture {
            seq![
                BoardEvent::OctiEaten(mid),
                BoardEvent::NewOctiPosition(cur, next),
                BoardEvent::Div,
            ]
        } else {
            seq![BoardEvent::NewOctiPosition(cur, next), BoardEvent::Div]
        };
        let rest = chain_events(v, orig, octi, next, arrs.drop_first(), eaten2).unwrap();
        let es = chain_events(v, orig, octi, cur, arrs, eaten).unwrap();
        assert(es == hop + rest);

        // The direction is never zero and coordinates are small, so the three
        // cells of a hop are pairwise distinct.
        assert(d.0 != 0 || d.1 != 0);
        assert(-1000 <= cur.0 <= 1000 && -1000 <= cur.1 <= 1000);
        assert(mid != cur && next != cur && next != mid);

        // The mover is of its own team, so a captured midpoint is never the
        // original cell, which still carries the mover in `v`.
        if capture {
            assert(mid != orig);
            assert(event_ok(w, BoardEvent::OctiEaten(mid)));
        }
        let w1 = if capture {
            apply_event(w, BoardEvent::OctiEaten(mid))
        } else {
            w
        };
        assert(w1.occ.contains_key(cur));
        assert(next == orig || !v.occ.contains_key(next));
        assert(!w1.occ.contains_key(next));
        assert(event_ok(w1, BoardEvent::NewOctiPosition(cur, next)));
        let w2 = apply_event(w1, BoardEvent::NewOctiPosition(cur, next));
        assert(w2.occ =~= chain_mid_occ(v, orig, octi, next, eaten2));
        assert(w2.bounds == v.bounds);

        // Replaying the hop's own events is possible and ends in `w2`.
        assert(apply_events(w, hop) == w2 && events_ok(w, hop)) by {
            let tail = seq![BoardEvent::NewOctiPosition(cur, next), BoardEvent::Div];
            assert(tail.first() == BoardEvent::NewOctiPosition(cur, next));
            assert(tail.drop_first() =~= seq![BoardEvent::Div]);
            lemma_single_event(w2, BoardEvent::Div);
            assert(apply_events(w1, tail) == w2);
            assert(events_ok(w1, tail));
            if capture {
                assert(hop.first() == BoardEvent::OctiEaten(mid));
                assert(hop.drop_first() =~= tail);
            } else {
                assert(hop =~= tail);
            }
        }

        lemma_chain_events_ok(v, orig, octi, next, arrs.drop_first(), eaten2, w2);
        lemma_events_concat(w, hop, rest);
    }
}

/// The events derived from a legal move can be applied, in order, to the
/// board they were derived from.
pub proof fn lemma_move_events_ok(v: BoardView, m: OctiMove)
    requires
        view_wf(v),
        move_events_spec(v, m) is Ok,
    ensures
        events_ok(v, move_events_spec(v, m).unwrap()),
{
    match m {
        OctiMove::Arrow(pos, arr) => {
            let e = BoardEvent::NewArrow(pos, arr);
            assert(event_ok(v, e));
            lemma_single_event(v, e);
        },
        OctiMove::Move(pos, arrs) => {
            if is_simple_step(v, pos, arrs@) {
                let to = pos_plus(pos, dir_of(arrs@[0]));
                let d = dir_of(arrs@[0]);
                assert(d.0 != 0 || d.1 != 0);
                assert(to != pos);
                let e = BoardEvent::NewOctiPosition(pos, to);
                assert(event_ok(v, e));
                lemma_single_event(v, e);
            } else {
                let octi = v.occ[pos];
                assert(v.occ =~= chain_mid_occ(v, pos, octi, pos, Set::empty()));
                lemma_chain_events_ok(v, pos, octi, pos, arrs@, Set::empty(), v);
            }
        },
    }
}

} // verus!
