//! A flat, copy-cheap snapshot of the rules board, optimized for deep
//! recursive search: cells in a dense vector indexed by linearized position,
//! with the same abstract state and event application as the rules board.

use vstd::prelude::*;

use crate::ai::{BOARD_HEIGHT, BOARD_WIDTH};
use vstd::std_specs::cmp::PartialEqSpec;
use crate::board::model::{
    apply_event, apply_events, budget_of, event_ok, events_ok, view_in_bounds, view_wf, BoardView,
};
use crate::board::state;
use crate::board::{
    lemma_popcount_bounds, lemma_popcount_set_bit, opposite, popcount, Boardable, BoardBounds,
    BoardEvent, BoardEventProcessor, Octi, OctiID, Position, Team, STARTING_ARROWS,
};

verus! {

/// Whether a position lies on the fixed six-by-seven grid.
pub open spec fn in_grid(p: Position) -> bool {
    0 <= p.0 < 6 && 0 <= p.1 < 7
}

/// The cell slot of a grid position.
pub open spec fn cell_index(p: Position) -> int {
    p.0 + p.1 * 6
}

/// The grid position of a cell slot.
pub open spec fn pos_at(idx: int) -> Position {
    Position((idx % 6) as i32, (idx / 6) as i32)
}

pub proof fn lemma_grid_index(p: Position)
    requires
        in_grid(p),
    ensures
        0 <= cell_index(p) < 42,
        pos_at(cell_index(p)) == p,
{
    assert(0 <= p.0 + p.1 * 6 < 42) by (nonlinear_arith)
        requires
            0 <= p.0 < 6 && 0 <= p.1 < 7,
    ;
    assert((p.0 + p.1 * 6) % 6 == p.0 && (p.0 + p.1 * 6) / 6 == p.1) by (nonlinear_arith)
        requires
            0 <= p.0 < 6 && 0 <= p.1 < 7,
    ;
}

pub proof fn lemma_index_grid(idx: int)
    requires
        0 <= idx < 42,
    ensures
        in_grid(pos_at(idx)),
        cell_index(pos_at(idx)) == idx,
{
    assert(0 <= idx % 6 < 6 && 0 <= idx / 6 < 7 && idx % 6 + (idx / 6) * 6 == idx)
        by (nonlinear_arith)
        requires
            0 <= idx < 42,
    ;
}

/// Number of active arrows in one cell.
pub open spec fn cell_arrs(c: Option<Octi>) -> int {
    match c {
        Some(o) => popcount(o.arrs),
        None => 0,
    }
}

/// Total number of active arrows standing on the cells.
pub open spec fn cells_total(s: Seq<Option<Octi>>) -> int
    decreases s.len(),
{
    if s.len() == 0 {
        0
    } else {
        cells_total(s.drop_last()) + cell_arrs(s.last())
    }
}

pub proof fn lemma_cells_total_update(s: Seq<Option<Octi>>, j: int, c2: Option<Octi>)
    requires
        0 <= j < s.len(),
    ensures
        cells_total(s.update(j, c2)) == cells_total(s) - cell_arrs(s[j]) + cell_arrs(c2),
    decreases s.len(),
{
    if j == s.len() - 1 {
        assert(s.update(j, c2).drop_last() =~= s.drop_last());
        assert(s.update(j, c2).last() == c2);
    } else {
        assert(s.update(j, c2).drop_last() =~= s.drop_last().update(j, c2));
        assert(s.update(j, c2).last() == s.last());
        assert(s.drop_last()[j] == s[j]);
        lemma_cells_total_update(s.drop_last(), j, c2);
    }
}

pub proof fn lemma_cells_total_nonneg(s: Seq<Option<Octi>>)
    ensures
        0 <= cells_total(s),
    decreases s.len(),
{
    if s.len() > 0 {
        lemma_cells_total_nonneg(s.drop_last());
        match s.last() {
            Some(o) => lemma_popcount_bounds(o.arrs),
            None => (),
        }
    }
}

pub proof fn lemma_cells_total_push(s: Seq<Option<Octi>>, c: Option<Octi>)
    ensures
        cells_total(s.push(c)) == cells_total(s) + cell_arrs(c),
{
    assert(s.push(c).drop_last() =~= s);
    assert(s.push(c).last() == c);
}

/// The search board: the side to move, one cell per grid position holding at
/// most one piece, and the per-team arrow budgets.
pub struct Board {
    pub turn: Team,
    pub octis: Vec<Option<Octi>>,
    pub red_arrows: u32,
    pub green_arrows: u32,
}

/// The abstract occupancy of a cell vector: the piece standing on each grid
/// position.
pub open spec fn cells_occ(s: Seq<Option<Octi>>) -> Map<Position, Octi> {
    Map::new(
        |p: Position| in_grid(p) && s[cell_index(p)] is Some,
        |p: Position| s[cell_index(p)].unwrap(),
    )
}

impl Boardable for Board {
    open spec fn bview(&self) -> BoardView {
        BoardView {
            turn: self.turn,
            bounds: BoardBounds(Position(0i32, 0i32), Position(5i32, 6i32)),
            occ: cells_occ(self.octis@),
            red_arrows: self.red_arrows as int,
            green_arrows: self.green_arrows as int,
        }
    }

    open spec fn wf(&self) -> bool {
        &&& self.octis@.len() == 42
        &&& forall|idx: int|
            0 <= idx < 42 ==> (#[trigger] self.octis@[idx] matches Some(o) ==> o.pos == pos_at(
                idx,
            ))
        &&& forall|i: int, j: int|
            0 <= i < j < 42 && self.octis@[i] is Some && self.octis@[j] is Some
                ==> (#[trigger] self.octis@[i]).unwrap().id != (#[trigger] self.octis@[j]).unwrap().id
        &&& self.red_arrows as int + self.green_arrows as int + cells_total(self.octis@) == 2
            * STARTING_ARROWS
    }

    proof fn wf_view(&self) {
        let v = self.bview();
        assert forall|p: Position| #[trigger] v.occ.contains_key(p) implies v.occ[p].pos == p
            && view_in_bounds(v, p) by {
            lemma_grid_index(p);
        }
        assert forall|p1: Position, p2: Position|
            v.occ.contains_key(p1) && v.occ.contains_key(p2) && p1 != p2 implies #[trigger] v.occ[p1].id != #[trigger] v.occ[p2].id by {
            lemma_grid_index(p1);
            lemma_grid_index(p2);
        }
        lemma_cells_total_nonneg(self.octis@);
    }

    fn get_octi_by_pos(&self, pos: &Position) -> (r: Option<&Octi>) {
        if pos.0 < 0 || pos.1 < 0 || pos.0 >= 6 || pos.1 >= 7 {
            return None;
        }
        proof {
            lemma_grid_index(*pos);
        }
        let idx: usize = pos.0 as usize + pos.1 as usize * 6;
        match &self.octis[idx] {
            Some(o) => Some(o),
            None => None,
        }
    }

    fn get_octi_by_id(&self, id: &OctiID) -> (r: Option<&Octi>) {
        let mut idx: usize = 0;
        while idx < 42
            invariant
                self.wf(),
                idx <= 42,
                forall|i: int|
                    0 <= i < idx ==> (#[trigger] self.octis@[i] matches Some(o) ==> o.id != *id),
            decreases 42 - idx,
        {
            match &self.octis[idx] {
                Some(o) => {
                    if o.id == *id {
                        proof {
                            lemma_index_grid(idx as int);
                        }
                        return Some(o);
                    }
                },
                None => (),
            }
            idx = idx + 1;
        }
        proof {
            assert forall|p: Position| #[trigger]
                self.bview().occ.contains_key(p) implies self.bview().occ[p].id != *id by {
                lemma_grid_index(p);
            }
        }
        None
    }

    fn get_arr_count(&self, team: &Team) -> (r: Option<u32>) {
        match team {
            Team::Red => Some(self.red_arrows),
            Team::Green => Some(self.green_arrows),
        }
    }

    fn in_bounds(&self, pos: &Position) -> (r: bool) {
        0 <= pos.0 && pos.0 < BOARD_WIDTH as i32 && 0 <= pos.1 && pos.1 < BOARD_HEIGHT as i32
    }

    fn turn(&self) -> (r: Team) {
        self.turn
    }

    fn set_turn(&mut self, turn: Team) {
        self.turn = turn;
    }
}

impl Board {
    /// Snapshots a rules board into the flat form; the two boards carry the
    /// same abstract state.
    pub fn new(board: &state::Board) -> (r: Board)
        requires
            board.wf(),
        ensures
            r.wf(),
            r.bview() == board.bview(),
    {
        proof {
            board.wf_view();
        }
        let mut cells: Vec<Option<Octi>> = Vec::new();
        let mut idx: usize = 0;
        while idx < 42
            invariant
                idx <= 42,
                cells@.len() == idx,
                forall|i: int| 0 <= i < idx ==> #[trigger] cells@[i] is None,
                cells_total(cells@) == 0,
            decreases 42 - idx,
        {
            let ghost before = cells@;
            cells.push(None);
            proof {
                lemma_cells_total_push(before, None);
            }
            idx = idx + 1;
        }
        let ghost store = board.octis@;
        let mut k: usize = 0;
        while k < board.octis.len()
            invariant
                board.wf(),
                cells@.len() == 42,
                k <= store.len(),
                board.octis@ == store,
                forall|i: int|
                    0 <= i < 42 ==> (#[trigger] cells@[i] matches Some(o) ==> o.pos == pos_at(i)),
                cells_occ(cells@) =~= state::occ_of(store.take(k as int)),
                cells_total(cells@) == state::total_arrs(store.take(k as int)),
                forall|i: int, j: int|
                    0 <= i < j < 42 && cells@[i] is Some && cells@[j] is Some
                        ==> (#[trigger] cells@[i]).unwrap().id != (
                    #[trigger] cells@[j]).unwrap().id,
            decreases store.len() - k,
        {
            let o = board.octis[k];
            proof {
                lemma_grid_index(o.pos);
            }
            let idx2: usize = o.pos.0 as usize + o.pos.1 as usize * 6;
            let ghost before = cells@;
            cells.set(idx2, Some(o));
            proof {
                lemma_cells_total_update(before, idx2 as int, Some(o));
                assert(store.take(k as int + 1).drop_last() =~= store.take(k as int));
                assert(store.take(k as int + 1).last() == store[k as int]);
                // The piece's cell was empty: its position is fresh among the
                // first `k` store entries, which fill exactly the occupied
                // cells so far.
                assert(!state::occ_of(store.take(k as int)).contains_key(o.pos)) by {
                    state::lemma_occ_contains(store.take(k as int), o.pos);
                }
                assert(before[idx2 as int] is None);
                assert(cells_occ(cells@) =~= state::occ_of(store.take(k as int + 1))) by {
                    assert forall|p: Position|
                        in_grid(p) && p != o.pos implies cells@[cell_index(p)] == before[cell_index(
                        p,
                    )] by {
                        lemma_grid_index(p);
                    }
                }
                assert forall|i: int, j: int|
                    0 <= i < j < 42 && cells@[i] is Some && cells@[j] is Some implies (
                #[trigger] cells@[i]).unwrap().id != (#[trigger] cells@[j]).unwrap().id by {
                    if i != idx2 && j != idx2 {
                        assert(before[i] == cells@[i] && before[j] == cells@[j]);
                    } else {
                        let other: int = if i == idx2 {
                            j
                        } else {
                            i
                        };
                        let oo = cells@[other].unwrap();
                        assert(before[other] is Some);
                        assert(in_grid(oo.pos) && cell_index(oo.pos) == other) by {
                            lemma_index_grid(other);
                        }
                        assert(cells_occ(before).contains_key(oo.pos));
                        state::lemma_occ_contains(store.take(k as int), oo.pos);
                        let m = choose|m: int|
                            0 <= m < k && store.take(k as int)[m].pos == oo.pos;
                        state::lemma_occ_at(store.take(k as int), m);
                        assert(store[m] == oo);
                        assert(store[m].id != store[k as int].id);
                    }
                }
            }
            k = k + 1;
        }
        let red = board.get_arr_count(&Team::Red).unwrap();
        let green = board.get_arr_count(&Team::Green).unwrap();
        let r = Board { turn: board.turn(), octis: cells, red_arrows: red, green_arrows: green };
        proof {
            assert(store.take(store.len() as int) =~= store);
            assert(r.bview() =~= board.bview());
        }
        r
    }

    /// The pieces standing on the board, in cell order.
    pub fn octis(&self) -> (r: Vec<Octi>)
        requires
            self.wf(),
        ensures
            r@ == cells_list(self.octis@.take(42)),
    {
        let mut out: Vec<Octi> = Vec::new();
        let mut idx: usize = 0;
        while idx < 42
            invariant
                self.wf(),
                idx <= 42,
                out@ == cells_list(self.octis@.take(idx as int)),
            decreases 42 - idx,
        {
            proof {
                assert(self.octis@.take(idx as int + 1).drop_last() =~= self.octis@.take(
                    idx as int,
                ));
            }
            match &self.octis[idx] {
                Some(o) => out.push(*o),
                None => (),
            }
            idx = idx + 1;
        }
        out
    }

    /// The grid position of a cell slot.
    pub fn index_to_pos(index: usize) -> (r: Position)
        requires
            index < 42,
        ensures
            r == pos_at(index as int),
            in_grid(r),
    {
        proof {
            lemma_index_grid(index as int);
        }
        Position((index % 6) as i32, (index / 6) as i32)
    }

    /// The cell slot of a grid position.
    pub fn pos_to_index(pos: &Position) -> (r: usize)
        requires
            in_grid(*pos),
        ensures
            r == cell_index(*pos),
    {
        proof {
            lemma_grid_index(*pos);
        }
        pos.0 as usize + pos.1 as usize * 6
    }
}

/// The pieces held by a cell vector, in cell order.
pub open spec fn cells_list(s: Seq<Option<Octi>>) -> Seq<Octi>
    decreases s.len(),
{
    if s.len() == 0 {
        Seq::empty()
    } else {
        match s.last() {
            Some(o) => cells_list(s.drop_last()).push(o),
            None => cells_list(s.drop_last()),
        }
    }
}


impl BoardEventProcessor for Board {
    fn process_events(&mut self, board_events: &[BoardEvent]) {
        let ghost v0 = self.bview();
        let mut i: usize = 0;
        proof {
            assert(board_events@.skip(0) =~= board_events@);
            assert(board_events@.take(0) =~= Seq::<BoardEvent>::empty());
        }
        while i < board_events.len()
            invariant
                self.wf(),
                i <= board_events@.len(),
                self.bview() == apply_events(v0, board_events@.take(i as int)),
                events_ok(self.bview(), board_events@.skip(i as int)),
            decreases board_events@.len() - i,
        {
            let ghost v_before = self.bview();
            let ghost s = self.octis@;
            proof {
                assert(board_events@.skip(i as int).first() == board_events@[i as int]);
                assert(board_events@.skip(i as int).drop_first() =~= board_events@.skip(
                    i as int + 1,
                ));
            }
            let event = board_events[i];
            match event {
                BoardEvent::NewArrow(pos, arr) => {
                    proof {
                        lemma_grid_index(pos);
                    }
                    let idx = Self::pos_to_index(&pos);
                    let mut o = self.octis[idx].unwrap();
                    o.add_arr(arr);
                    self.octis.set(idx, Some(o));
                    match o.team() {
                        Team::Red => {
                            self.red_arrows = self.red_arrows - 1;
                        },
                        Team::Green => {
                            self.green_arrows = self.green_arrows - 1;
                        },
                    }
                    proof {
                        lemma_cells_total_update(s, idx as int, Some(o));
                        assert(cells_occ(self.octis@) =~= v_before.occ.insert(pos, o)) by {
                            assert forall|q: Position| in_grid(q) && q != pos implies self.octis@[cell_index(
                                q,
                            )] == s[cell_index(q)] by {
                                lemma_grid_index(q);
                            }
                        }
                        assert(self.bview() =~= apply_event(v_before, event));
                    }
                },
                BoardEvent::NewOctiPosition(from, to) => {
                    proof {
                        lemma_grid_index(from);
                        assert(in_grid(to));
                        lemma_grid_index(to);
                    }
                    let idx_from = Self::pos_to_index(&from);
                    let idx_to = Self::pos_to_index(&to);
                    let mut o = self.octis[idx_from].unwrap();
                    self.octis.set(idx_from, None);
                    o.set_pos(to);
                    let ghost s_mid = self.octis@;
                    self.octis.set(idx_to, Some(o));
                    proof {
                        lemma_cells_total_update(s, idx_from as int, None);
                        lemma_cells_total_update(s_mid, idx_to as int, Some(o));
                        assert forall|i2: int, j2: int|
                            0 <= i2 < j2 < 42 && self.octis@[i2] is Some && self.octis@[j2] is Some
                                implies (#[trigger] self.octis@[i2]).unwrap().id != (
                        #[trigger] self.octis@[j2]).unwrap().id by {
                            if i2 != idx_to && j2 != idx_to {
                                assert(self.octis@[i2] == s[i2] && self.octis@[j2] == s[j2]);
                            } else {
                                let other: int = if i2 == idx_to {
                                    j2
                                } else {
                                    i2
                                };
                                assert(self.octis@[other] == s[other]);
                                assert(s[idx_from as int].unwrap().id == o.id);
                            }
                        }
                        assert(cells_occ(self.octis@) =~= v_before.occ.remove(from).insert(to, o))
                            by {
                            assert forall|q: Position|
                                in_grid(q) && q != from && q != to implies self.octis@[cell_index(
                                q,
                            )] == s[cell_index(q)] by {
                                lemma_grid_index(q);
                            }
                        }
                        assert(self.bview() =~= apply_event(v_before, event));
                    }
                },
                BoardEvent::OctiEaten(pos) => {
                    proof {
                        lemma_grid_index(pos);
                    }
                    let idx = Self::pos_to_index(&pos);
                    let o = self.octis[idx].unwrap();
                    let count = o.arr_count();
                    proof {
                        lemma_popcount_bounds(o.arrs);
                        lemma_cells_total_update(s, idx as int, None);
                        lemma_cells_total_nonneg(s.update(idx as int, None));
                    }
                    self.octis.set(idx, None);
                    match o.team() {
                        Team::Red => {
                            self.green_arrows = self.green_arrows + count;
                        },
                        Team::Green => {
                            self.red_arrows = self.red_arrows + count;
                        },
                    }
                    proof {
                        assert(cells_occ(self.octis@) =~= v_before.occ.remove(pos)) by {
                            assert forall|q: Position| in_grid(q) && q != pos implies self.octis@[cell_index(
                                q,
                            )] == s[cell_index(q)] by {
                                lemma_grid_index(q);
                            }
                        }
                        assert(self.bview() =~= apply_event(v_before, event));
                    }
                },
                BoardEvent::Div => {
                },
            }
            proof {
                assert(board_events@.take(i as int + 1) =~= board_events@.take(i as int).push(
                    board_events@[i as int],
                ));
                crate::board::model::lemma_apply_events_push(
                    v0,
                    board_events@.take(i as int),
                    board_events@[i as int],
                );
            }
            i = i + 1;
        }
        proof {
            assert(board_events@.take(board_events@.len() as int) =~= board_events@);
        }
    }
}

/// A team's active arrows standing on a cell.
pub open spec fn cell_flags(m: Map<Position, Octi>, q: Position, t: Team) -> int {
    if m.contains_key(q) && m[q].team == t {
        popcount(m[q].arrs)
    } else {
        0
    }
}

/// A team's active arrows standing on the grid from slot `idx` on.
pub open spec fn flags_scan(m: Map<Position, Octi>, idx: int, t: Team) -> int
    decreases 42 - idx,
{
    if idx < 0 || idx >= 42 {
        0
    } else {
        cell_flags(m, pos_at(idx), t) + flags_scan(m, idx + 1, t)
    }
}

/// A team's arrows on a grid board: its remaining budget plus the active
/// arrows on its own pieces.
pub open spec fn team_arrows(v: BoardView, t: Team) -> int {
    budget_of(v, t) + flags_scan(v.occ, 0, t)
}

/// Two piece maps that agree away from one cell differ in a team's flag
/// scan by exactly that cell's contribution.
proof fn lemma_flags_scan_diff(
    m1: Map<Position, Octi>,
    m2: Map<Position, Octi>,
    q: Position,
    t: Team,
    idx: int,
)
    requires
        in_grid(q),
        forall|p: Position|
            p != q ==> (#[trigger] m1.contains_key(p) == m2.contains_key(p) && (m1.contains_key(p)
                ==> m1[p] == m2[p])),
        0 <= idx <= 42,
    ensures
        flags_scan(m2, idx, t) - flags_scan(m1, idx, t) == if idx <= cell_index(q) {
            cell_flags(m2, q, t) - cell_flags(m1, q, t)
        } else {
            0
        },
    decreases 42 - idx,
{
    lemma_grid_index(q);
    if idx < 42 {
        lemma_flags_scan_diff(m1, m2, q, t, idx + 1);
        if pos_at(idx) != q {
            let pi = pos_at(idx);
            assert(m1.contains_key(pi) == m2.contains_key(pi) && (m1.contains_key(pi)
                ==> m1[pi] == m2[pi]));
            assert(cell_flags(m1, pi, t) == cell_flags(m2, pi, t));
        } else {
            assert(cell_index(q) == idx) by {
                lemma_index_grid(idx);
            }
        }
    }
}

/// The per-team arrow bookkeeping of one applicable event on a grid
/// board: an arrow placement moves one arrow from its own team's budget
/// onto its piece and leaves both teams' budget-plus-flags sums
/// unchanged; a relocation and the hop marker leave both sums unchanged;
/// a capture leaves both sums unchanged exactly when the captured piece
/// carried no active arrows, and otherwise moves the piece's arrow count
/// from the captured side's sum into the capturing side's budget. With
/// the boards' conserved two-team total, each team's sum therefore stays
/// at its starting value until an armed piece of it is captured.
pub proof fn lemma_event_team_arrows(v: BoardView, e: BoardEvent, t: Team)
    requires
        view_wf(v),
        event_ok(v, e),
        v.bounds == BoardBounds(Position(0i32, 0i32), Position(5i32, 6i32)),
    ensures
        ({
            let v2 = apply_event(v, e);
            match e {
                BoardEvent::NewArrow(_, _) => team_arrows(v2, t) == team_arrows(v, t),
                BoardEvent::NewOctiPosition(_, _) => team_arrows(v2, t) == team_arrows(v, t),
                BoardEvent::Div => team_arrows(v2, t) == team_arrows(v, t),
                BoardEvent::OctiEaten(q) => team_arrows(v2, t) == (if v.occ[q].team == t {
                    team_arrows(v, t) - popcount(v.occ[q].arrs)
                } else if opposite(v.occ[q].team) == t {
                    team_arrows(v, t) + popcount(v.occ[q].arrs)
                } else {
                    team_arrows(v, t)
                }),
            }
        }),
{
    let v2 = apply_event(v, e);
    match e {
        BoardEvent::NewArrow(q, arr) => {
            assert(in_grid(q));
            lemma_popcount_set_bit(v.occ[q].arrs, arr.0 as u8);
            lemma_flags_scan_diff(v.occ, v2.occ, q, t, 0);
            lemma_grid_index(q);
        },
        BoardEvent::NewOctiPosition(from, to) => {
            assert(in_grid(from) && in_grid(to));
            let mid = v.occ.remove(from);
            lemma_flags_scan_diff(v.occ, mid, from, t, 0);
            lemma_flags_scan_diff(mid, v2.occ, to, t, 0);
            lemma_grid_index(from);
            lemma_grid_index(to);
        },
        BoardEvent::OctiEaten(q) => {
            assert(in_grid(q));
            lemma_flags_scan_diff(v.occ, v2.occ, q, t, 0);
            lemma_grid_index(q);
            match (v.occ[q].team, t) {
                (Team::Red, Team::Red) => (),
                (Team::Red, Team::Green) => (),
                (Team::Green, Team::Red) => (),
                (Team::Green, Team::Green) => (),
            }
        },
        BoardEvent::Div => {
        },
    }
}

/// The mirror image of a direction index under a left-right flip.
pub open spec fn mirror_dir(k: int) -> int {
    if k == 0 {
        4
    } else if k == 1 {
        3
    } else if k == 3 {
        1
    } else if k == 4 {
        0
    } else if k == 5 {
        7
    } else if k == 7 {
        5
    } else {
        k
    }
}

/// An arrow mask with every direction replaced by its mirror image.
pub open spec fn mirror_arrs(m: u8) -> u8 {
    ((m >> 4) & 1) | (((m >> 3) & 1) << 1) | (((m >> 2) & 1) << 2) | (((m >> 1) & 1) << 3) | ((m
        & 1) << 4) | (((m >> 7) & 1) << 5) | (((m >> 6) & 1) << 6) | (((m >> 5) & 1) << 7)
}

/// A piece reflected left-right: same identity and team, mirrored cell and
/// arrows.
pub open spec fn mirror_octi(o: Octi, p: Position) -> Octi {
    Octi { id: o.id, team: o.team, pos: p, arrs: mirror_arrs(o.arrs) }
}

impl Board {
    /// The left-right mirror image of this board: cell `(x, y)` holds the
    /// mirror of the piece at `(5 - x, y)`. Used only as an extra key for
    /// the score memo table.
    pub fn horizontal_flip(&self) -> (r: Board)
        requires
            self.wf(),
        ensures
            r.turn == self.turn,
            r.red_arrows == self.red_arrows,
            r.green_arrows == self.green_arrows,
            r.octis@.len() == 42,
            forall|j: int|
                0 <= j < 42 ==> #[trigger] r.octis@[j] == (match self.octis@[cell_index(
                    Position((5 - pos_at(j).0) as i32, pos_at(j).1),
                )] {
                    Some(o) => Some(mirror_octi(o, pos_at(j))),
                    None => None::<Octi>,
                }),
    {
        let mut cells: Vec<Option<Octi>> = Vec::new();
        let mut idx: usize = 0;
        while idx < 42
            invariant
                self.wf(),
                idx <= 42,
                cells@.len() == idx,
                forall|j: int|
                    0 <= j < idx ==> #[trigger] cells@[j] == (match self.octis@[cell_index(
                        Position((5 - pos_at(j).0) as i32, pos_at(j).1),
                    )] {
                        Some(o) => Some(mirror_octi(o, pos_at(j))),
                        None => None::<Octi>,
                    }),
            decreases 42 - idx,
        {
            let pos = Self::index_to_pos(idx);
            let src = Position(5 - pos.0, pos.1);
            proof {
                lemma_grid_index(src);
            }
            let src_idx = Self::pos_to_index(&src);
            match &self.octis[src_idx] {
                Some(o) => {
                    let m = o.arrs;
                    let flipped: u8 = ((m >> 4) & 1) | (((m >> 3) & 1) << 1) | (((m >> 2) & 1)
                        << 2) | (((m >> 1) & 1) << 3) | ((m & 1) << 4) | (((m >> 7) & 1) << 5) | ((
                    (m >> 6) & 1) << 6) | (((m >> 5) & 1) << 7);
                    cells.push(Some(Octi { id: o.id, team: o.team, pos, arrs: flipped }));
                },
                None => {
                    cells.push(None);
                },
            }
            idx = idx + 1;
        }
        Board {
            turn: self.turn,
            octis: cells,
            red_arrows: self.red_arrows,
            green_arrows: self.green_arrows,
        }
    }
}

/// Whether two cells hold the same content.
fn cell_eq(a: &Option<Octi>, b: &Option<Octi>) -> (r: bool)
    ensures
        r == (a == b),
{
    match (a, b) {
        (Some(x), Some(y)) => *x == *y,
        (None, None) => true,
        _ => false,
    }
}

impl PartialEq for Board {
    /// Full value comparison: same side to move, same cells, same budgets.
    fn eq(&self, other: &Board) -> (r: bool) {
        if !(self.turn == other.turn && self.red_arrows == other.red_arrows && self.green_arrows
            == other.green_arrows && self.octis.len() == other.octis.len()) {
            return false;
        }
        let mut i: usize = 0;
        while i < self.octis.len()
            invariant
                self.octis@.len() == other.octis@.len(),
                i <= self.octis@.len(),
                forall|j: int| 0 <= j < i ==> self.octis@[j] == other.octis@[j],
            decreases self.octis@.len() - i,
        {
            if !cell_eq(&self.octis[i], &other.octis[i]) {
                return false;
            }
            i = i + 1;
        }
        proof {
            assert(self.octis@ =~= other.octis@);
        }
        true
    }
}

impl vstd::std_specs::cmp::PartialEqSpecImpl for Board {
    open spec fn obeys_eq_spec() -> bool {
        true
    }

    open spec fn eq_spec(&self, other: &Board) -> bool {
        self.turn == other.turn && self.octis@ == other.octis@ && self.red_arrows
            == other.red_arrows && self.green_arrows == other.green_arrows
    }
}

impl Eq for Board {

}

impl Clone for Board {
    /// A full copy: the clone carries exactly the same state.
    fn clone(&self) -> (r: Board)
        ensures
            r.turn == self.turn,
            r.octis@ == self.octis@,
            r.red_arrows == self.red_arrows,
            r.green_arrows == self.green_arrows,
            r.wf() == self.wf(),
            r.bview() == self.bview(),
    {
        let mut cells: Vec<Option<Octi>> = Vec::new();
        let mut k: usize = 0;
        while k < self.octis.len()
            invariant
                k <= self.octis@.len(),
                cells@ =~= self.octis@.take(k as int),
            decreases self.octis@.len() - k,
        {
            cells.push(self.octis[k]);
            k = k + 1;
        }
        proof {
            assert(cells@ =~= self.octis@);
        }
        Board {
            turn: self.turn,
            octis: cells,
            red_arrows: self.red_arrows,
            green_arrows: self.green_arrows,
        }
    }
}


/// Every piece listed from a cell vector stands in one of its cells.
pub proof fn lemma_cells_list_mem(s: Seq<Option<Octi>>, k: int)
    requires
        0 <= k < cells_list(s).len(),
    ensures
        exists|idx: int| 0 <= idx < s.len() && s[idx] == Some(cells_list(s)[k]),
    decreases s.len(),
{
    if s.len() > 0 {
        match s.last() {
            Some(o) => {
                if k < cells_list(s).len() - 1 {
                    lemma_cells_list_mem(s.drop_last(), k);
                    let idx = choose|idx: int|
                        0 <= idx < s.drop_last().len() && s.drop_last()[idx] == Some(
                            cells_list(s.drop_last())[k],
                        );
                    assert(s[idx] == Some(cells_list(s)[k]));
                } else {
                    assert(s[s.len() - 1] == Some(cells_list(s)[k]));
                }
            },
            None => {
                lemma_cells_list_mem(s.drop_last(), k);
                let idx = choose|idx: int|
                    0 <= idx < s.drop_last().len() && s.drop_last()[idx] == Some(
                        cells_list(s.drop_last())[k],
                    );
                assert(s[idx] == Some(cells_list(s)[k]));
            },
        }
    }
}

/// Determinism of the flat representation: two well-formed search boards
/// in the same abstract state compare equal. Since event application pins
/// the abstract state after `process_events` as a function of the state
/// before it and the events alone, applying one derived event sequence to
/// two copies of a board leaves boards that compare equal.
pub proof fn lemma_state_determined(b1: Board, b2: Board)
    requires
        b1.wf(),
        b2.wf(),
        b1.bview() == b2.bview(),
    ensures
        b1.eq_spec(&b2),
{
    assert forall|idx: int| 0 <= idx < 42 implies b1.octis@[idx] == b2.octis@[idx] by {
        lemma_index_grid(idx);
        let p = pos_at(idx);
        assert(cell_index(p) == idx);
        if b1.octis@[idx] is Some {
            assert(b1.bview().occ.contains_key(p));
            assert(b2.bview().occ.contains_key(p));
            assert(b2.octis@[idx] is Some);
            assert(b1.octis@[idx].unwrap() == b1.bview().occ[p]);
            assert(b2.octis@[idx].unwrap() == b2.bview().occ[p]);
            assert(b2.bview().occ[p] == b1.bview().occ[p]);
        } else {
            assert(!b1.bview().occ.contains_key(p));
            assert(!b2.bview().occ.contains_key(p));
            assert(b2.octis@[idx] is None);
        }
    }
    assert(b1.octis@ =~= b2.octis@);
}

} // verus!
