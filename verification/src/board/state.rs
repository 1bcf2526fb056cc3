//! The authoritative rules board: pieces in a store keyed by identity, a
//! position index kept as its exact inverse, per-team arrow budgets, and the
//! starting position.

use vstd::prelude::*;

use crate::board::model::{
    apply_event, apply_events, events_ok, view_in_bounds, BoardView,
};
use crate::board::{
    in_bounds_of, lemma_popcount_bounds, popcount, popcount_upto, Boardable, BoardBounds,
    BoardEvent, BoardEventProcessor, Octi, OctiID, Position, Team, STARTING_ARROWS,
};

verus! {

broadcast use vstd::set::group_set_axioms;

/// The pieces of a store, as a map keyed by the position each one occupies.
/// A later entry wins, but stores are kept free of duplicate positions.
pub open spec fn occ_of(s: Seq<Octi>) -> Map<Position, Octi>
    decreases s.len(),
{
    if s.len() == 0 {
        Map::<Position, Octi>::empty()
    } else {
        occ_of(s.drop_last()).insert(s.last().pos, s.last())
    }
}

/// No two pieces of the store share a position.
pub open spec fn distinct_positions(s: Seq<Octi>) -> bool {
    forall|i: int, j: int| 0 <= i < j < s.len() ==> s[i].pos != s[j].pos
}

/// No two pieces of the store share an identity.
pub open spec fn distinct_ids(s: Seq<Octi>) -> bool {
    forall|i: int, j: int| 0 <= i < j < s.len() ==> s[i].id != s[j].id
}

/// Total number of active arrows standing on the board.
pub open spec fn total_arrs(s: Seq<Octi>) -> int
    decreases s.len(),
{
    if s.len() == 0 {
        0
    } else {
        total_arrs(s.drop_last()) + popcount(s.last().arrs)
    }
}

pub proof fn lemma_occ_contains(s: Seq<Octi>, p: Position)
    ensures
        occ_of(s).contains_key(p) <==> exists|i: int| 0 <= i < s.len() && s[i].pos == p,
    decreases s.len(),
{
    if s.len() > 0 {
        lemma_occ_contains(s.drop_last(), p);
        if s.last().pos == p {
            assert(s[s.len() - 1].pos == p);
        } else if occ_of(s).contains_key(p) {
            let i = choose|i: int| 0 <= i < s.drop_last().len() && s.drop_last()[i].pos == p;
            assert(s[i].pos == p);
        } else if exists|i: int| 0 <= i < s.len() && s[i].pos == p {
            let i = choose|i: int| 0 <= i < s.len() && s[i].pos == p;
            assert(s.drop_last()[i].pos == p);
        }
    }
}

pub proof fn lemma_occ_at(s: Seq<Octi>, i: int)
    requires
        distinct_positions(s),
        0 <= i < s.len(),
    ensures
        occ_of(s).contains_key(s[i].pos),
        occ_of(s)[s[i].pos] == s[i],
    decreases s.len(),
{
    if i < s.len() - 1 {
        assert(s.drop_last()[i] == s[i]);
        lemma_occ_at(s.drop_last(), i);
        assert(s.last().pos != s[i].pos);
    }
}

pub proof fn lemma_occ_values(s: Seq<Octi>, p: Position)
    requires
        distinct_positions(s),
        occ_of(s).contains_key(p),
    ensures
        occ_of(s)[p].pos == p,
        exists|i: int| 0 <= i < s.len() && s[i] == occ_of(s)[p],
{
    lemma_occ_contains(s, p);
    let i = choose|i: int| 0 <= i < s.len() && s[i].pos == p;
    lemma_occ_at(s, i);
}

pub proof fn lemma_occ_update(s: Seq<Octi>, j: int, o2: Octi)
    requires
        distinct_positions(s),
        0 <= j < s.len(),
        forall|i: int| 0 <= i < s.len() && i != j ==> s[i].pos != o2.pos,
    ensures
        occ_of(s.update(j, o2)) =~= occ_of(s).remove(s[j].pos).insert(o2.pos, o2),
    decreases s.len(),
{
    lemma_occ_contains(s.drop_last(), s[j].pos);
    lemma_occ_contains(s.drop_last(), o2.pos);
    if j == s.len() - 1 {
        assert(s.update(j, o2).drop_last() =~= s.drop_last());
        assert(s.update(j, o2).last() == o2);
        assert(forall|i: int| 0 <= i < s.drop_last().len() ==> s.drop_last()[i] == s[i]);
        assert(!occ_of(s.drop_last()).contains_key(s[j].pos));
    } else {
        assert(s.update(j, o2).drop_last() =~= s.drop_last().update(j, o2));
        assert(s.update(j, o2).last() == s.last());
        assert(forall|i: int| 0 <= i < s.drop_last().len() ==> s.drop_last()[i] == s[i]);
        lemma_occ_update(s.drop_last(), j, o2);
        assert(s.last().pos != s[j].pos);
        assert(s.last().pos != o2.pos);
    }
}

pub proof fn lemma_occ_remove(s: Seq<Octi>, j: int)
    requires
        distinct_positions(s),
        0 <= j < s.len(),
    ensures
        occ_of(s.remove(j)) =~= occ_of(s).remove(s[j].pos),
    decreases s.len(),
{
    lemma_occ_contains(s.drop_last(), s[j].pos);
    if j == s.len() - 1 {
        assert(s.remove(j) =~= s.drop_last());
        assert(!occ_of(s.drop_last()).contains_key(s[j].pos));
    } else {
        assert(s.remove(j).drop_last() =~= s.drop_last().remove(j));
        assert(s.remove(j).last() == s.last());
        assert(forall|i: int| 0 <= i < s.drop_last().len() ==> s.drop_last()[i] == s[i]);
        lemma_occ_remove(s.drop_last(), j);
        assert(s.last().pos != s[j].pos);
    }
}

pub proof fn lemma_total_update(s: Seq<Octi>, j: int, o2: Octi)
    requires
        0 <= j < s.len(),
    ensures
        total_arrs(s.update(j, o2)) == total_arrs(s) - popcount(s[j].arrs) + popcount(o2.arrs),
    decreases s.len(),
{
    if j == s.len() - 1 {
        assert(s.update(j, o2).drop_last() =~= s.drop_last());
        assert(s.update(j, o2).last() == o2);
    } else {
        assert(s.update(j, o2).drop_last() =~= s.drop_last().update(j, o2));
        assert(s.update(j, o2).last() == s.last());
        assert(s.drop_last()[j] == s[j]);
        lemma_total_update(s.drop_last(), j, o2);
    }
}

pub proof fn lemma_total_remove(s: Seq<Octi>, j: int)
    requires
        0 <= j < s.len(),
    ensures
        total_arrs(s.remove(j)) == total_arrs(s) - popcount(s[j].arrs),
    decreases s.len(),
{
    if j == s.len() - 1 {
        assert(s.remove(j) =~= s.drop_last());
    } else {
        assert(s.remove(j).drop_last() =~= s.drop_last().remove(j));
        assert(s.remove(j).last() == s.last());
        assert(s.drop_last()[j] == s[j]);
        lemma_total_remove(s.drop_last(), j);
    }
}

pub proof fn lemma_total_push(s: Seq<Octi>, o: Octi)
    ensures
        total_arrs(s.push(o)) == total_arrs(s) + popcount(o.arrs),
{
    assert(s.push(o).drop_last() =~= s);
    assert(s.push(o).last() == o);
}

pub proof fn lemma_total_nonneg(s: Seq<Octi>)
    ensures
        0 <= total_arrs(s),
    decreases s.len(),
{
    if s.len() > 0 {
        lemma_total_nonneg(s.drop_last());
        lemma_popcount_bounds(s.last().arrs);
    }
}

/// An arrow mask with no bits set holds no arrows.
pub proof fn lemma_popcount_zero()
    ensures
        popcount(0u8) == 0,
{
    assert forall|k: u8| k < 8 implies (0u8 >> k) & 1 == 0 by {
        assert((0u8 >> k) & 1 == 0) by (bit_vector);
    }
    lemma_popcount_upto_zero(8);
}

proof fn lemma_popcount_upto_zero(k: nat)
    requires
        k <= 8,
        forall|j: u8| j < 8 ==> (0u8 >> j) & 1 == 0,
    ensures
        popcount_upto(0u8, k) == 0,
    decreases k,
{
    if k > 0 {
        lemma_popcount_upto_zero((k - 1) as nat);
    }
}

/// The authoritative game state: the side to move, the playing area, the
/// pieces, a position index that is the exact inverse of the piece
/// positions, the per-team arrow budgets, and the next identity that a piece
/// would receive.
pub struct Board {
    pub turn: Team,
    pub bounds: BoardBounds,
    pub octis: Vec<Octi>,
    pub pos_indexer: Vec<(Position, OctiID)>,
    pub red_arrows: u32,
    pub green_arrows: u32,
    pub next_id: OctiID,
}

/// The piece that starts the game at slot `i`: Red's four pieces stand on
/// row 5, Green's on row 1, each on columns 1 through 4, with no arrows
/// active.
pub open spec fn initial_octi(i: int) -> Octi {
    if i < 4 {
        Octi { id: i as u32, team: Team::Red, pos: Position((i + 1) as i32, 5i32), arrs: 0u8 }
    } else {
        Octi { id: i as u32, team: Team::Green, pos: Position((i - 3) as i32, 1i32), arrs: 0u8 }
    }
}

/// The eight pieces of the starting position.
pub open spec fn initial_octis() -> Seq<Octi> {
    Seq::new(8, |i: int| initial_octi(i))
}

/// The starting board: Red to move, the standard six-by-seven area, the
/// eight starting pieces, and twelve arrows of budget for each team.
pub open spec fn initial_view() -> BoardView {
    BoardView {
        turn: Team::Red,
        bounds: BoardBounds(Position(0i32, 0i32), Position(5i32, 6i32)),
        occ: occ_of(initial_octis()),
        red_arrows: STARTING_ARROWS as int,
        green_arrows: STARTING_ARROWS as int,
    }
}

impl Board {
    pub fn bounds(&self) -> (r: BoardBounds)
        ensures
            r == self.bounds,
    {
        self.bounds
    }

    /// Looks a position up in the index; the slot found is the piece's slot
    /// in the store.
    fn find_pos(&self, pos: &Position) -> (r: Option<usize>)
        requires
            self.wf(),
        ensures
            r matches Some(j) ==> j < self.octis@.len() && self.octis@[j as int].pos == *pos,
            r is None ==> forall|i: int| 0 <= i < self.octis@.len() ==> self.octis@[i].pos != *pos,
    {
        let mut k: usize = 0;
        while k < self.pos_indexer.len()
            invariant
                self.wf(),
                k <= self.pos_indexer@.len(),
                forall|i: int| 0 <= i < k ==> self.octis@[i].pos != *pos,
            decreases self.pos_indexer@.len() - k,
        {
            if self.pos_indexer[k].0 == *pos {
                return Some(k);
            }
            k = k + 1;
        }
        None
    }
}

impl Boardable for Board {
    open spec fn bview(&self) -> BoardView {
        BoardView {
            turn: self.turn,
            bounds: self.bounds,
            occ: occ_of(self.octis@),
            red_arrows: self.red_arrows as int,
            green_arrows: self.green_arrows as int,
        }
    }

    open spec fn wf(&self) -> bool {
        &&& self.bounds == BoardBounds(Position(0i32, 0i32), Position(5i32, 6i32))
        &&& distinct_positions(self.octis@)
        &&& distinct_ids(self.octis@)
        &&& forall|i: int|
            0 <= i < self.octis@.len() ==> in_bounds_of(self.bounds, #[trigger] self.octis@[i].pos)
        &&& self.pos_indexer@.len() == self.octis@.len()
        &&& forall|i: int|
            0 <= i < self.octis@.len() ==> #[trigger] self.pos_indexer@[i] == (
                self.octis@[i].pos,
                self.octis@[i].id,
            )
        &&& forall|i: int| 0 <= i < self.octis@.len() ==> #[trigger] self.octis@[i].id < self.next_id
        &&& self.red_arrows as int + self.green_arrows as int + total_arrs(self.octis@) == 2
            * STARTING_ARROWS
    }

    proof fn wf_view(&self) {
        let s = self.octis@;
        let v = self.bview();
        assert forall|p: Position| #[trigger] v.occ.contains_key(p) implies v.occ[p].pos == p
            && view_in_bounds(v, p) by {
            lemma_occ_values(s, p);
            let i = choose|i: int| 0 <= i < s.len() && s[i] == v.occ[p];
            assert(in_bounds_of(self.bounds, s[i].pos));
        }
        assert forall|p1: Position, p2: Position|
            v.occ.contains_key(p1) && v.occ.contains_key(p2) && p1 != p2 implies #[trigger] v.occ[p1].id != #[trigger] v.occ[p2].id by {
            lemma_occ_values(s, p1);
            lemma_occ_values(s, p2);
            let i1 = choose|i: int| 0 <= i < s.len() && s[i] == v.occ[p1];
            let i2 = choose|i: int| 0 <= i < s.len() && s[i] == v.occ[p2];
            assert(s[i1].pos == p1 && s[i2].pos == p2);
            assert(i1 != i2);
        }
        lemma_total_nonneg(s);
    }

    fn get_octi_by_pos(&self, pos: &Position) -> (r: Option<&Octi>) {
        proof {
            lemma_occ_contains(self.octis@, *pos);
        }
        match self.find_pos(pos) {
            Some(j) => {
                proof {
                    lemma_occ_at(self.octis@, j as int);
                }
                Some(&self.octis[j])
            },
            None => None,
        }
    }

    fn get_octi_by_id(&self, id: &OctiID) -> (r: Option<&Octi>) {
        let mut k: usize = 0;
        while k < self.octis.len()
            invariant
                self.wf(),
                k <= self.octis@.len(),
                forall|i: int| 0 <= i < k ==> self.octis@[i].id != *id,
            decreases self.octis@.len() - k,
        {
            if self.octis[k].id == *id {
                proof {
                    lemma_occ_at(self.octis@, k as int);
                }
                return Some(&self.octis[k]);
            }
            k = k + 1;
        }
        proof {
            assert forall|p: Position| #[trigger]
                self.bview().occ.contains_key(p) implies self.bview().occ[p].id != *id by {
                lemma_occ_values(self.octis@, p);
            }
        }
        None
    }

    fn get_arr_count(&self, team: &Team) -> (r: Option<u32>) {
        match team {
            Team::Red => Some(self.red_arrows),
            Team::Green => Some(self.green_arrows),
        }
    }

    fn in_bounds(&self, pos: &Position) -> (r: bool) {
        self.bounds.in_bounds(pos)
    }

    fn turn(&self) -> (r: Team) {
        self.turn
    }

    fn set_turn(&mut self, turn: Team) {
        self.turn = turn;
    }
}

impl BoardEventProcessor for Board {
    fn process_events(&mut self, board_events: &[BoardEvent]) {
        let ghost v0 = self.bview();
        let mut i: usize = 0;
        proof {
            assert(board_events@.skip(0) =~= board_events@);
            assert(board_events@.take(0) =~= Seq::<BoardEvent>::empty());
        }
        while i < board_events.len()
            invariant
                self.wf(),
                i <= board_events@.len(),
                self.bview() == apply_events(v0, board_events@.take(i as int)),
                events_ok(self.bview(), board_events@.skip(i as int)),
            decreases board_events@.len() - i,
        {
            let ghost v_before = self.bview();
            let ghost s = self.octis@;
            proof {
                assert(board_events@.skip(i as int).first() == board_events@[i as int]);
                assert(board_events@.skip(i as int).drop_first() =~= board_events@.skip(
                    i as int + 1,
                ));
            }
            let event = board_events[i];
            match event {
                BoardEvent::NewArrow(pos, arr) => {
                    proof {
                        lemma_occ_contains(s, pos);
                    }
                    let j = self.find_pos(&pos).unwrap();
                    proof {
                        lemma_occ_at(s, j as int);
                    }
                    let mut o = self.octis[j];
                    o.add_arr(arr);
                    self.octis.set(j, o);
                    let team = o.team();
                    match team {
                        Team::Red => {
                            self.red_arrows = self.red_arrows - 1;
                        },
                        Team::Green => {
                            self.green_arrows = self.green_arrows - 1;
                        },
                    }
                    proof {
                        lemma_occ_update(s, j as int, o);
                        lemma_total_update(s, j as int, o);
                        assert(occ_of(self.octis@) =~= v_before.occ.insert(pos, o));
                        assert(self.bview() =~= apply_event(v_before, event));
                    }
                },
                BoardEvent::NewOctiPosition(from, to) => {
                    proof {
                        lemma_occ_contains(s, from);
                        lemma_occ_contains(s, to);
                    }
                    let j = self.find_pos(&from).unwrap();
                    proof {
                        lemma_occ_at(s, j as int);
                    }
                    let mut o = self.octis[j];
                    o.set_pos(to);
                    self.octis.set(j, o);
                    self.pos_indexer.set(j, (to, o.id()));
                    proof {
                        lemma_occ_update(s, j as int, o);
                        lemma_total_update(s, j as int, o);
                        assert(self.bview() =~= apply_event(v_before, event));
                    }
                },
                BoardEvent::OctiEaten(pos) => {
                    proof {
                        lemma_occ_contains(s, pos);
                    }
                    let j = self.find_pos(&pos).unwrap();
                    proof {
                        lemma_occ_at(s, j as int);
                    }
                    let o = self.octis[j];
                    let count = o.arr_count();
                    proof {
                        lemma_popcount_bounds(o.arrs);
                        lemma_total_remove(s, j as int);
                        lemma_total_nonneg(s.remove(j as int));
                    }
                    self.octis.remove(j);
                    self.pos_indexer.remove(j);
                    match o.team() {
                        Team::Red => {
                            self.green_arrows = self.green_arrows + count;
                        },
                        Team::Green => {
                            self.red_arrows = self.red_arrows + count;
                        },
                    }
                    proof {
                        lemma_occ_remove(s, j as int);
                        assert(self.bview() =~= apply_event(v_before, event));
                    }
                },
                BoardEvent::Div => {
                },
            }
            proof {
                assert(board_events@.take(i as int + 1) =~= board_events@.take(i as int).push(
                    board_events@[i as int],
                ));
                crate::board::model::lemma_apply_events_push(
                    v0,
                    board_events@.take(i as int),
                    board_events@[i as int],
                );
            }
            i = i + 1;
        }
        proof {
            assert(board_events@.take(board_events@.len() as int) =~= board_events@);
        }
    }
}

impl Default for Board {
    /// The standard starting position.
    fn default() -> (r: Board)
        ensures
            r.wf(),
            r.bview() == initial_view(),
    {
        let mut octis: Vec<Octi> = Vec::new();
        let mut pos_indexer: Vec<(Position, OctiID)> = Vec::new();
        let mut id: u32 = 0;
        proof {
            lemma_popcount_zero();
        }
        while id < 8
            invariant
                id <= 8,
                octis@.len() == id,
                pos_indexer@.len() == id,
                forall|i: int| 0 <= i < id ==> octis@[i] == initial_octi(i),
                forall|i: int|
                    0 <= i < id ==> #[trigger] pos_indexer@[i] == (octis@[i].pos, octis@[i].id),
                total_arrs(octis@) == 0,
                popcount(0u8) == 0,
            decreases 8 - id,
        {
            let ghost s_before = octis@;
            let x: i32;
            let team: Team;
            if id < 4 {
                x = id as i32 + 1;
                team = Team::Red;
            } else {
                x = id as i32 - 3;
                team = Team::Green;
            }
            let y: i32 = if id < 4 {
                5
            } else {
                1
            };
            let pos = Position(x, y);
            let octi = Octi { id, team, pos, arrs: 0u8 };
            pos_indexer.push((pos, id));
            octis.push(octi);
            proof {
                lemma_total_push(s_before, octi);
                assert(octi == initial_octi(id as int));
            }
            id = id + 1;
        }
        let board = Board {
            turn: Team::Red,
            bounds: BoardBounds(Position(0, 0), Position(5, 6)),
            octis,
            pos_indexer,
            red_arrows: STARTING_ARROWS,
            green_arrows: STARTING_ARROWS,
            next_id: 8,
        };
        proof {
            assert(board.octis@ =~= initial_octis());
            assert forall|i: int, j: int| 0 <= i < j < 8 implies initial_octi(i).pos
                != initial_octi(j).pos by {
            }
            assert(board.bview() =~= initial_view());
        }
        board
    }
}

impl Clone for Board {
    /// A full copy: the clone carries exactly the same state.
    fn clone(&self) -> (r: Board)
        ensures
            r.turn == self.turn,
            r.bounds == self.bounds,
            r.octis@ == self.octis@,
            r.pos_indexer@ == self.pos_indexer@,
            r.red_arrows == self.red_arrows,
            r.green_arrows == self.green_arrows,
            r.next_id == self.next_id,
            r.wf() == self.wf(),
            r.bview() == self.bview(),
    {
        let mut octis: Vec<Octi> = Vec::new();
        let mut k: usize = 0;
        while k < self.octis.len()
            invariant
                k <= self.octis@.len(),
                octis@ =~= self.octis@.take(k as int),
            decreases self.octis@.len() - k,
        {
            octis.push(self.octis[k]);
            k = k + 1;
        }
        let mut pos_indexer: Vec<(Position, OctiID)> = Vec::new();
        let mut k2: usize = 0;
        while k2 < self.pos_indexer.len()
            invariant
                k2 <= self.pos_indexer@.len(),
                pos_indexer@ =~= self.pos_indexer@.take(k2 as int),
            decreases self.pos_indexer@.len() - k2,
        {
            pos_indexer.push(self.pos_indexer[k2]);
            k2 = k2 + 1;
        }
        proof {
            assert(octis@ =~= self.octis@);
            assert(pos_indexer@ =~= self.pos_indexer@);
        }
        Board {
            turn: self.turn,
            bounds: self.bounds,
            octis,
            pos_indexer,
            red_arrows: self.red_arrows,
            green_arrows: self.green_arrows,
            next_id: self.next_id,
        }
    }
}

/// The position index is the exact inverse of the piece positions: an entry
/// pairs a position with an identity exactly when the piece with that
/// identity stands there, and no position appears twice.
pub proof fn lemma_pos_index_inverse(b: Board)
    requires
        b.wf(),
    ensures
        forall|k: int|
            0 <= k < b.pos_indexer@.len() ==> b.bview().occ.contains_key(
                (#[trigger] b.pos_indexer@[k]).0,
            ) && b.bview().occ[b.pos_indexer@[k].0].id == b.pos_indexer@[k].1,
        forall|p: Position| #[trigger]
            b.bview().occ.contains_key(p) ==> exists|k: int|
                0 <= k < b.pos_indexer@.len() && b.pos_indexer@[k] == (p, b.bview().occ[p].id),
        forall|k1: int, k2: int|
            0 <= k1 < k2 < b.pos_indexer@.len() ==> (#[trigger] b.pos_indexer@[k1]).0 != (
            #[trigger] b.pos_indexer@[k2]).0,
{
    let s = b.octis@;
    assert forall|k: int| 0 <= k < b.pos_indexer@.len() implies b.bview().occ.contains_key(
        (#[trigger] b.pos_indexer@[k]).0,
    ) && b.bview().occ[b.pos_indexer@[k].0].id == b.pos_indexer@[k].1 by {
        lemma_occ_at(s, k);
    }
    assert forall|p: Position| #[trigger] b.bview().occ.contains_key(p) implies exists|k: int|
        0 <= k < b.pos_indexer@.len() && b.pos_indexer@[k] == (p, b.bview().occ[p].id) by {
        lemma_occ_contains(s, p);
        let i = choose|i: int| 0 <= i < s.len() && s[i].pos == p;
        lemma_occ_at(s, i);
        assert(b.pos_indexer@[i] == (p, b.bview().occ[p].id));
    }
}

/// Conservation of arrows: the two remaining budgets plus every active arrow
/// standing on the board always total the two starting budgets.
pub proof fn lemma_arrow_conservation(b: Board)
    requires
        b.wf(),
    ensures
        b.red_arrows + b.green_arrows + total_arrs(b.octis@) == 2 * STARTING_ARROWS,
{
}

} // verus!
