//! Core board types for the Octi rules engine: geometry primitives, pieces,
//! moves, and the events that moves are compiled into.

pub mod model;
pub mod parse;
pub mod state;

use vstd::prelude::*;

use crate::board::model::{
    after_move, apply_events, budget_of, chain_events, events_ok, is_simple_step,
    lemma_move_events_ok, move_chain_events, move_events_spec, move_ok, pos_plus, pos_plus2,
    view_in_bounds, view_wf, BoardView,
};

verus! {

broadcast use vstd::set::group_set_axioms, vstd::seq_lib::lemma_seq_contains_after_push;

/// Number of arrow slots on each piece, one per compass direction.
pub const ARROWS_PER_OCTI: usize = 8;

/// Starting arrow budget of each team.
pub const STARTING_ARROWS: u32 = 12;

/// The two sides of a game. Red starts at the bottom (high `y`), Green at the
/// top (low `y`), and Red moves first.
#[derive(Clone, Copy, PartialEq, Eq, Structural, Debug, Hash)]
pub enum Team {
    Red,
    Green,
}

/// The opposing team.
pub open spec fn opposite(t: Team) -> Team {
    match t {
        Team::Red => Team::Green,
        Team::Green => Team::Red,
    }
}

impl Team {
    /// The opposing team.
    pub fn other(&self) -> (r: Team)
        ensures
            r == opposite(*self),
    {
        match self {
            Team::Red => Team::Green,
            Team::Green => Team::Red,
        }
    }
}

/// Whether one arrow slot of a piece has been activated.
#[derive(Clone, Copy, PartialEq, Eq, Structural, Debug, Hash)]
pub enum ArrowStatus {
    Active,
    Inactive,
}

/// An integer grid position `(x, y)`.
#[derive(Clone, Copy, PartialEq, Eq, Structural, Debug, Hash, PartialOrd, Ord)]
pub struct Position(pub i32, pub i32);

/// A direction is represented as a unit displacement.
pub type Direction = Position;

/// Stable identity of a piece.
pub type OctiID = u32;

impl Position {
    pub fn new(x: i32, y: i32) -> (r: Position)
        ensures
            r == Position(x, y),
    {
        Position(x, y)
    }

    pub fn x(&self) -> (r: i32)
        ensures
            r == self.0,
    {
        self.0
    }

    pub fn y(&self) -> (r: i32)
        ensures
            r == self.1,
    {
        self.1
    }

    /// Componentwise absolute value.
    pub fn abs(self) -> (r: Position)
        requires
            self.0 != i32::MIN,
            self.1 != i32::MIN,
        ensures
            r.0 == if self.0 < 0 { -self.0 } else { self.0 as int },
            r.1 == if self.1 < 0 { -self.1 } else { self.1 as int },
    {
        let x: i32 = if self.0 < 0 { -self.0 } else { self.0 };
        let y: i32 = if self.1 < 0 { -self.1 } else { self.1 };
        Position(x, y)
    }

    /// Componentwise sum.
    pub fn add(self, rhs: Position) -> (r: Position)
        requires
            i32::MIN <= self.0 + rhs.0 <= i32::MAX,
            i32::MIN <= self.1 + rhs.1 <= i32::MAX,
        ensures
            r.0 == self.0 + rhs.0,
            r.1 == self.1 + rhs.1,
    {
        Position(self.0 + rhs.0, self.1 + rhs.1)
    }

    /// Componentwise difference.
    pub fn sub(self, rhs: Position) -> (r: Position)
        requires
            i32::MIN <= self.0 - rhs.0 <= i32::MAX,
            i32::MIN <= self.1 - rhs.1 <= i32::MAX,
        ensures
            r.0 == self.0 - rhs.0,
            r.1 == self.1 - rhs.1,
    {
        Position(self.0 - rhs.0, self.1 - rhs.1)
    }

    /// Scaling by an integer factor.
    pub fn mul(self, rhs: i32) -> (r: Position)
        requires
            i32::MIN <= self.0 * rhs <= i32::MAX,
            i32::MIN <= self.1 * rhs <= i32::MAX,
        ensures
            r.0 == self.0 * rhs,
            r.1 == self.1 * rhs,
    {
        Position(self.0 * rhs, self.1 * rhs)
    }
}

impl Default for Position {
    fn default() -> (r: Position)
        ensures
            r == Position(0i32, 0i32),
    {
        Position(0, 0)
    }
}

/// One of the eight compass directions a piece can activate, stored as an
/// index in `[0, 8)`: E, NE, N, NW, W, SW, S, SE. A value outside that range
/// never denotes an arrow; every operation treats it as "no such arrow".
#[derive(Clone, Copy, PartialEq, Eq, Structural, Debug, Hash)]
pub struct Arrow(pub usize);

/// Whether an arrow index denotes one of the eight directions.
pub open spec fn arrow_ok(a: Arrow) -> bool {
    a.0 < 8
}

/// The unit displacement of each direction index.
pub open spec fn dir_of(a: Arrow) -> Direction {
    if a.0 == 0 {
        Position(1i32, 0i32)
    } else if a.0 == 1 {
        Position(1i32, -1i32)
    } else if a.0 == 2 {
        Position(0i32, -1i32)
    } else if a.0 == 3 {
        Position(-1i32, -1i32)
    } else if a.0 == 4 {
        Position(-1i32, 0i32)
    } else if a.0 == 5 {
        Position(-1i32, 1i32)
    } else if a.0 == 6 {
        Position(0i32, 1i32)
    } else {
        Position(1i32, 1i32)
    }
}

impl Arrow {
    /// Validates an arrow index.
    pub fn new(value: usize) -> (r: Result<Arrow, String>)
        ensures
            value < 8 ==> r == Ok::<Arrow, String>(Arrow(value)),
            value >= 8 ==> r is Err,
    {
        if value >= ARROWS_PER_OCTI {
            Err(String::from_str("invalid arrow value"))
        } else {
            Ok(Arrow(value))
        }
    }

    pub fn value(&self) -> (r: usize)
        ensures
            r == self.0,
    {
        self.0
    }

    /// The unit displacement of this direction.
    pub fn direction(&self) -> (r: Direction)
        requires
            arrow_ok(*self),
        ensures
            r == dir_of(*self),
    {
        match self.0 {
            0 => Position(1, 0),
            1 => Position(1, -1),
            2 => Position(0, -1),
            3 => Position(-1, -1),
            4 => Position(-1, 0),
            5 => Position(-1, 1),
            6 => Position(0, 1),
            _ => Position(1, 1),
        }
    }
}

/// Number of set bits among the lowest `k` bits of an arrow mask.
pub open spec fn popcount_upto(m: u8, k: nat) -> int
    decreases k,
{
    if k == 0 {
        0
    } else {
        popcount_upto(m, (k - 1) as nat) + (if (m >> ((k - 1) as u8)) & 1 == 1 {
            1int
        } else {
            0int
        })
    }
}

/// Number of active arrows in an arrow mask.
pub open spec fn popcount(m: u8) -> int {
    popcount_upto(m, 8)
}

/// Whether bit `k` of an arrow mask is set.
pub open spec fn mask_bit(m: u8, k: usize) -> bool {
    k < 8 && (m >> (k as u8)) & 1 == 1
}

pub proof fn lemma_popcount_bounds(m: u8)
    ensures
        0 <= popcount(m) <= 8,
{
    lemma_popcount_upto_bounds(m, 8);
}

proof fn lemma_popcount_upto_bounds(m: u8, k: nat)
    requires
        k <= 8,
    ensures
        0 <= popcount_upto(m, k) <= k,
    decreases k,
{
    if k > 0 {
        lemma_popcount_upto_bounds(m, (k - 1) as nat);
    }
}

/// Setting one clear bit increases the count by exactly one.
pub proof fn lemma_popcount_set_bit(m: u8, j: u8)
    requires
        j < 8,
        (m >> j) & 1 != 1,
    ensures
        popcount(m | (1u8 << j)) == popcount(m) + 1,
{
    lemma_popcount_upto_set_bit(m, j, 8);
}

proof fn lemma_popcount_upto_set_bit(m: u8, j: u8, k: nat)
    requires
        j < 8,
        (m >> j) & 1 != 1,
        k <= 8,
    ensures
        popcount_upto(m | (1u8 << j), k) == popcount_upto(m, k) + (if j < k {
            1int
        } else {
            0int
        }),
    decreases k,
{
    if k > 0 {
        let i = (k - 1) as u8;
        lemma_popcount_upto_set_bit(m, j, (k - 1) as nat);
        if i == j {
            assert(((m | (1u8 << j)) >> j) & 1 == 1) by (bit_vector)
                requires
                    j < 8,
            ;
        } else {
            assert(((m | (1u8 << j)) >> i) & 1 == (m >> i) & 1) by (bit_vector)
                requires
                    j < 8,
                    i < 8,
                    i != j,
            ;
        }
    }
}

/// A piece: identity, owning team, position, and the mask of its active
/// arrows (bit `k` stands for direction `k`).
#[derive(Clone, Copy, PartialEq, Eq, Structural, Debug, Hash)]
pub struct Octi {
    pub id: OctiID,
    pub team: Team,
    pub pos: Position,
    pub arrs: u8,
}

/// Whether the piece holds the given arrow.
pub open spec fn has_arr_spec(o: Octi, a: Arrow) -> bool {
    arrow_ok(a) && mask_bit(o.arrs, a.0)
}

impl Octi {
    pub fn new(id: OctiID, team: Team, pos: Position, arrs: [ArrowStatus; 8]) -> (r: Octi)
        ensures
            r.id == id,
            r.team == team,
            r.pos == pos,
            forall|k: usize| k < 8 ==> mask_bit(r.arrs, k) == (arrs@[k as int] == ArrowStatus::Active),
    {
        let mut mask: u8 = 0;
        proof {
            assert forall|i: u8| i < 8 implies (0u8 >> i) & 1 == 0 by {
                assert((0u8 >> i) & 1 == 0) by (bit_vector);
            }
        }
        let mut k: usize = 0;
        while k < 8
            invariant
                k <= 8,
                forall|i: usize| i < k ==> mask_bit(mask, i) == (arrs@[i as int] == ArrowStatus::Active),
                forall|i: usize| k <= i < 8 ==> !mask_bit(mask, i),
            decreases 8 - k,
        {
            if arrs[k] == ArrowStatus::Active {
                let ghost old_mask = mask;
                mask = mask | (1u8 << (k as u8));
                proof {
                    let j = k as u8;
                    assert forall|i: usize| i < 8 implies mask_bit(mask, i) == (i == k || mask_bit(
                        old_mask,
                        i,
                    )) by {
                        let iu = i as u8;
                        assert(iu == j ==> ((old_mask | (1u8 << j)) >> iu) & 1 == 1) by (bit_vector)
                            requires
                                iu < 8,
                                j < 8,
                        ;
                        assert(iu != j ==> ((old_mask | (1u8 << j)) >> iu) & 1 == (old_mask >> iu)
                            & 1) by (bit_vector)
                            requires
                                iu < 8,
                                j < 8,
                        ;
                    }
                }
            }
            k = k + 1;
        }
        Octi { id, team, pos, arrs: mask }
    }

    pub fn id(&self) -> (r: OctiID)
        ensures
            r == self.id,
    {
        self.id
    }

    pub fn team(&self) -> (r: Team)
        ensures
            r == self.team,
    {
        self.team
    }

    pub fn pos(&self) -> (r: Position)
        ensures
            r == self.pos,
    {
        self.pos
    }

    /// Whether this piece holds the given arrow.
    pub fn has_arr(&self, arr: &Arrow) -> (r: bool)
        ensures
            r == has_arr_spec(*self, *arr),
    {
        if arr.0 >= 8 {
            false
        } else {
            (self.arrs >> (arr.0 as u8)) & 1 == 1
        }
    }

    /// Number of active arrows on this piece.
    pub fn arr_count(&self) -> (r: u32)
        ensures
            r == popcount(self.arrs),
    {
        let m = self.arrs;
        let mut count: u32 = 0;
        let mut k: usize = 0;
        while k < 8
            invariant
                k <= 8,
                count == popcount_upto(m, k as nat),
                count <= k,
            decreases 8 - k,
        {
            if (m >> (k as u8)) & 1 == 1 {
                count = count + 1;
            }
            k = k + 1;
        }
        count
    }

    /// The status of every arrow slot, indexed by direction.
    pub fn arr_iter(&self) -> (r: Vec<ArrowStatus>)
        ensures
            r@.len() == 8,
            forall|k: usize| k < 8 ==> (r@[k as int] == ArrowStatus::Active) == mask_bit(
                self.arrs,
                k,
            ),
    {
        let mut statuses: Vec<ArrowStatus> = Vec::new();
        let mut k: usize = 0;
        while k < 8
            invariant
                k <= 8,
                statuses@.len() == k,
                forall|i: usize| i < k ==> (statuses@[i as int] == ArrowStatus::Active) == mask_bit(
                    self.arrs,
                    i,
                ),
            decreases 8 - k,
        {
            if (self.arrs >> (k as u8)) & 1 == 1 {
                statuses.push(ArrowStatus::Active);
            } else {
                statuses.push(ArrowStatus::Inactive);
            }
            k = k + 1;
        }
        statuses
    }

    /// Activates an arrow that is not yet active.
    pub fn add_arr(&mut self, arr: Arrow)
        requires
            arrow_ok(arr),
            !has_arr_spec(*old(self), arr),
        ensures
            final(self).id == old(self).id,
            final(self).team == old(self).team,
            final(self).pos == old(self).pos,
            final(self).arrs == old(self).arrs | (1u8 << (arr.0 as u8)),
            has_arr_spec(*final(self), arr),
            popcount(final(self).arrs) == popcount(old(self).arrs) + 1,
            forall|k: usize| k < 8 && k != arr.0 ==> mask_bit(final(self).arrs, k) == mask_bit(
                old(self).arrs,
                k,
            ),
    {
        let j = arr.0 as u8;
        let ghost m = self.arrs;
        self.arrs = self.arrs | (1u8 << j);
        proof {
            lemma_popcount_set_bit(m, j);
            assert(((m | (1u8 << j)) >> j) & 1 == 1) by (bit_vector)
                requires
                    j < 8,
            ;
            assert forall|k: usize| k < 8 && k != arr.0 implies mask_bit(m | (1u8 << j), k)
                == mask_bit(m, k) by {
                let i = k as u8;
                assert(((m | (1u8 << j)) >> i) & 1 == (m >> i) & 1) by (bit_vector)
                    requires
                        i < 8,
                        j < 8,
                        i != j,
                ;
            }
        }
    }

    pub fn set_pos(&mut self, pos: Position)
        ensures
            final(self).id == old(self).id,
            final(self).team == old(self).team,
            final(self).pos == pos,
            final(self).arrs == old(self).arrs,
    {
        self.pos = pos;
    }
}

/// The rectangular playing area, as its upper-left and lower-right corners
/// (both inclusive).
#[derive(Clone, Copy, PartialEq, Eq, Structural, Debug)]
pub struct BoardBounds(pub Position, pub Position);

/// Whether a position lies inside the given bounds.
pub open spec fn in_bounds_of(b: BoardBounds, p: Position) -> bool {
    b.0.0 <= p.0 <= b.1.0 && b.0.1 <= p.1 <= b.1.1
}

impl BoardBounds {
    pub fn new(lu: Position, rd: Position) -> (r: BoardBounds)
        ensures
            r == BoardBounds(lu, rd),
    {
        BoardBounds(lu, rd)
    }

    pub fn lu(&self) -> (r: Position)
        ensures
            r == self.0,
    {
        self.0
    }

    pub fn rd(&self) -> (r: Position)
        ensures
            r == self.1,
    {
        self.1
    }

    pub fn height(&self) -> (r: i32)
        requires
            i32::MIN <= self.1.1 - self.0.1,
            self.1.1 - self.0.1 + 1 <= i32::MAX,
        ensures
            r == self.1.1 - self.0.1 + 1,
    {
        self.1.1 - self.0.1 + 1
    }

    pub fn width(&self) -> (r: i32)
        requires
            i32::MIN <= self.1.0 - self.0.0,
            self.1.0 - self.0.0 + 1 <= i32::MAX,
        ensures
            r == self.1.0 - self.0.0 + 1,
    {
        self.1.0 - self.0.0 + 1
    }

    pub fn in_bounds(&self, pos: &Position) -> (r: bool)
        ensures
            r == in_bounds_of(*self, *pos),
    {
        self.0.0 <= pos.0 && pos.0 <= self.1.0 && self.0.1 <= pos.1 && pos.1 <= self.1.1
    }
}

impl Default for BoardBounds {
    fn default() -> (r: BoardBounds)
        ensures
            r == BoardBounds(Position(0i32, 0i32), Position(5i32, 6i32)),
    {
        BoardBounds(Position(0, 0), Position(5, 6))
    }
}

/// A move request: either activate one arrow on the piece at a position, or
/// move the piece at a position along a chain of arrows.
#[derive(Clone, PartialEq, Eq, Debug)]
pub enum OctiMove {
    Arrow(Position, Arrow),
    Move(Position, Vec<Arrow>),
}

/// One step of board mutation. An ordered sequence of these is the sole unit
/// of change that a board undergoes.
#[derive(Clone, Copy, PartialEq, Eq, Structural, Debug)]
pub enum BoardEvent {
    /// Activate an arrow on the piece at the position, paying one arrow of
    /// its team's budget.
    NewArrow(Position, Arrow),
    /// Move the piece from the first position to the second.
    NewOctiPosition(Position, Position),
    /// Remove the piece at the position, transferring its active-arrow count
    /// to the opposing team's budget.
    OctiEaten(Position),
    /// Delimiter between the hops of a capture chain; carries no data.
    Div,
}

/// Why a move request was rejected. These are recoverable caller errors; the
/// board is never changed by a rejected move.
#[derive(Clone, Copy, PartialEq, Eq, Structural, Debug)]
pub enum MoveError {
    /// No piece stands at the given position.
    NoOcti(Position),
    /// The piece at the position belongs to the team moving out of turn.
    WrongTurn(Team, Team),
    /// The moving team has no remaining arrow budget.
    NoArrows(Team),
    /// The requested arrow is already active on the piece.
    ArrowAlreadyActive(Position, Arrow),
    /// The piece does not hold the arrow needed for a hop.
    ArrowNotOnOcti(Position, Arrow),
    /// A landing position lies outside the board.
    OutOfBounds(Position),
    /// A hop has no piece on its midpoint to jump over.
    NoMidpointOcti(Position),
    /// A landing position is already occupied.
    Blocked(Position),
}


/// Whether a list of positions holds the given position.
fn contains_position(list: &Vec<Position>, p: &Position) -> (r: bool)
    ensures
        r == list@.contains(*p),
{
    let mut i: usize = 0;
    while i < list.len()
        invariant
            i <= list@.len(),
            forall|j: int| 0 <= j < i ==> list@[j] != *p,
        decreases list@.len() - i,
    {
        if list[i] == *p {
            return true;
        }
        i = i + 1;
    }
    false
}

/// Read access shared by every board representation. Each implementation
/// carries the same abstract state, a `BoardView`, so that validation and
/// search are written once against this trait.
pub trait Boardable: Sized {
    /// The abstract state of this board.
    spec fn bview(&self) -> BoardView;

    /// The representation invariant of this board.
    spec fn wf(&self) -> bool;

    /// A well-formed board has a well-formed abstract state.
    proof fn wf_view(&self)
        requires
            self.wf(),
        ensures
            view_wf(self.bview()),
    ;

    /// The piece standing at a position, if any.
    fn get_octi_by_pos(&self, pos: &Position) -> (r: Option<&Octi>)
        requires
            self.wf(),
        ensures
            r is Some <==> self.bview().occ.contains_key(*pos),
            r matches Some(o) ==> *o == self.bview().occ[*pos],
    ;

    /// The piece with a given identity, if any.
    fn get_octi_by_id(&self, id: &OctiID) -> (r: Option<&Octi>)
        requires
            self.wf(),
        ensures
            r matches Some(o) ==> self.bview().occ.contains_key(o.pos) && self.bview().occ[o.pos]
                == *o && o.id == *id,
            r is None ==> forall|p: Position|
                #[trigger] self.bview().occ.contains_key(p) ==> self.bview().occ[p].id != *id,
    ;

    /// The team's remaining arrow budget.
    fn get_arr_count(&self, team: &Team) -> (r: Option<u32>)
        requires
            self.wf(),
        ensures
            r matches Some(n) ==> n == budget_of(self.bview(), *team),
            r is Some,
    ;

    /// Whether a position lies on this board's playing area.
    fn in_bounds(&self, pos: &Position) -> (r: bool)
        requires
            self.wf(),
        ensures
            r == view_in_bounds(self.bview(), *pos),
    ;

    /// The side to move.
    fn turn(&self) -> (r: Team)
        requires
            self.wf(),
        ensures
            r == self.bview().turn,
    ;

    /// Hands the turn to the given side, changing nothing else.
    fn set_turn(&mut self, turn: Team)
        requires
            old(self).wf(),
        ensures
            final(self).wf(),
            final(self).bview() == (BoardView { turn, ..old(self).bview() }),
    ;
}

/// Move validation and application, shared by every board representation.
/// Deriving the events of a move is pure and reports every way a move can be
/// illegal; applying events trusts that they were derived from a legal move
/// on this very board state.
pub trait BoardEventProcessor: Boardable {
    /// Applies pre-validated events in order. Callers must present a
    /// sequence that is applicable to the current state; `move_events` on
    /// the same state produces only such sequences.
    fn process_events(&mut self, board_events: &[BoardEvent])
        requires
            old(self).wf(),
            events_ok(old(self).bview(), board_events@),
        ensures
            final(self).wf(),
            final(self).bview() == apply_events(old(self).bview(), board_events@),
    ;

    /// Whether the move is legal on the current board.
    fn is_move_valid(&self, octi_move: &OctiMove) -> (r: bool)
        requires
            self.wf(),
        ensures
            r == move_ok(self.bview(), *octi_move),
    {
        self.move_events(octi_move).is_ok()
    }

    /// Validates a move request and derives the ordered events it would
    /// cause, without changing the board; or reports exactly why the move is
    /// illegal.
    fn move_events(&self, octi_move: &OctiMove) -> (r: Result<Vec<BoardEvent>, MoveError>)
        requires
            self.wf(),
        ensures
            r matches Ok(es) ==> move_events_spec(self.bview(), *octi_move) == Ok::<
                Seq<BoardEvent>,
                MoveError,
            >(es@),
            r matches Err(e) ==> move_events_spec(self.bview(), *octi_move) == Err::<
                Seq<BoardEvent>,
                MoveError,
            >(e),
    {
        let ghost v = self.bview();
        proof {
            self.wf_view();
        }
        match octi_move {
            OctiMove::Arrow(pos, arr) => {
                let octi = match self.get_octi_by_pos(pos) {
                    Some(o) => *o,
                    None => {
                        return Err(MoveError::NoOcti(*pos));
                    },
                };
                let team = octi.team();
                let arr_count = self.get_arr_count(&team).unwrap();
                let turn = self.turn();
                if arr_count == 0 {
                    return Err(MoveError::NoArrows(team));
                }
                if team != turn {
                    return Err(MoveError::WrongTurn(turn, team));
                }
                if arr.value() >= ARROWS_PER_OCTI {
                    return Err(MoveError::ArrowNotOnOcti(*pos, *arr));
                }
                if octi.has_arr(arr) {
                    return Err(MoveError::ArrowAlreadyActive(*pos, *arr));
                }
                let mut events: Vec<BoardEvent> = Vec::new();
                events.push(BoardEvent::NewArrow(*pos, *arr));
                proof {
                    assert(events@ =~= seq![BoardEvent::NewArrow(*pos, *arr)]);
                }
                Ok(events)
            },
            OctiMove::Move(pos, arrs) => {
                let pos = *pos;
                let octi = match self.get_octi_by_pos(&pos) {
                    Some(o) => *o,
                    None => {
                        return Err(MoveError::NoOcti(pos));
                    },
                };
                let team = octi.team();
                let turn = self.turn();
                if team != turn {
                    return Err(MoveError::WrongTurn(turn, team));
                }
                if arrs.len() == 1 {
                    let arr = arrs[0];
                    if !octi.has_arr(&arr) {
                        return Err(MoveError::ArrowNotOnOcti(pos, arr));
                    }
                    let direction = arr.direction();
                    let consider = pos.add(direction);
                    let empty_destination = self.get_octi_by_pos(&consider).is_none();
                    if self.in_bounds(&consider) && empty_destination {
                        let mut events: Vec<BoardEvent> = Vec::new();
                        events.push(BoardEvent::NewOctiPosition(pos, consider));
                        proof {
                            assert(is_simple_step(v, pos, arrs@));
                            assert(events@ =~= seq![BoardEvent::NewOctiPosition(pos, consider)]);
                        }
                        return Ok(events);
                    }
                }
                proof {
                    assert(!is_simple_step(v, pos, arrs@));
                }
                let mut board_events: Vec<BoardEvent> = Vec::new();
                let mut eaten: Vec<Position> = Vec::new();
                let mut next_pos = pos;
                let mut i: usize = 0;
                proof {
                    assert(arrs@.skip(0) =~= arrs@);
                    assert(eaten@.to_set() =~= Set::<Position>::empty());
                    let c = chain_events(v, pos, octi, pos, arrs@, Set::<Position>::empty());
                    if c is Ok {
                        assert(board_events@ + c.unwrap() =~= c.unwrap());
                    }
                }
                while i < arrs.len()
                    invariant
                        self.wf(),
                        v == self.bview(),
                        view_wf(v),
                        v.occ.contains_key(pos),
                        v.occ[pos] == octi,
                        team == octi.team,
                        move_events_spec(v, *octi_move) == move_chain_events(v, pos, arrs@),
                        i <= arrs@.len(),
                        view_in_bounds(v, next_pos),
                        move_chain_events(v, pos, arrs@) == (match chain_events(
                            v,
                            pos,
                            octi,
                            next_pos,
                            arrs@.skip(i as int),
                            eaten@.to_set(),
                        ) {
                            Ok(rest) => Ok::<Seq<BoardEvent>, MoveError>(board_events@ + rest),
                            Err(e) => Err::<Seq<BoardEvent>, MoveError>(e),
                        }),
                    decreases arrs@.len() - i,
                {
                    let ghost suffix = arrs@.skip(i as int);
                    proof {
                        assert(suffix.first() == arrs@[i as int]);
                        assert(suffix.drop_first() =~= arrs@.skip(i as int + 1));
                    }
                    let arr = arrs[i];
                    let ghost eaten_set = eaten@.to_set();
                    if !octi.has_arr(&arr) {
                        proof {
                            assert(chain_events(v, pos, octi, next_pos, suffix, eaten_set)
                                == Err::<Seq<BoardEvent>, MoveError>(MoveError::ArrowNotOnOcti(
                                pos,
                                arr,
                            )));
                        }
                        return Err(MoveError::ArrowNotOnOcti(pos, arr));
                    }
                    let direction = arr.direction();
                    let previous_pos = next_pos;
                    let in_between_pos = previous_pos.add(direction);
                    next_pos = previous_pos.add(direction.mul(2));
                    proof {
                        assert(in_between_pos == pos_plus(previous_pos, dir_of(arr)));
                        assert(next_pos == pos_plus2(previous_pos, dir_of(arr)));
                    }
                    if !self.in_bounds(&next_pos) {
                        proof {
                            assert(chain_events(v, pos, octi, previous_pos, suffix, eaten_set)
                                == Err::<Seq<BoardEvent>, MoveError>(MoveError::OutOfBounds(
                                next_pos,
                            )));
                        }
                        return Err(MoveError::OutOfBounds(next_pos));
                    }
                    let ghost eaten_before = eaten@;
                    let ghost events_before = board_events@;
                    let did_capture: bool;
                    match self.get_octi_by_pos(&in_between_pos) {
                        Some(in_between_octi) => {
                            did_capture = in_between_octi.team() != team && !contains_position(
                                &eaten,
                                &in_between_pos,
                            );
                            if did_capture {
                                board_events.push(BoardEvent::OctiEaten(in_between_pos));
                                eaten.push(in_between_pos);
                                proof {
                                    eaten_before.lemma_push_to_set_commute(in_between_pos);
                                    assert(eaten@.to_set() =~= eaten_before.to_set().insert(
                                        in_between_pos,
                                    ));
                                }
                            }
                        },
                        None => {
                            proof {
                                assert(chain_events(v, pos, octi, previous_pos, suffix, eaten_set)
                                    == Err::<Seq<BoardEvent>, MoveError>(MoveError::NoMidpointOcti(
                                    in_between_pos,
                                )));
                            }
                            return Err(MoveError::NoMidpointOcti(in_between_pos));
                        },
                    }
                    let next_pos_octi_present = self.get_octi_by_pos(&next_pos).is_some();
                    if next_pos_octi_present && next_pos != pos {
                        proof {
                            assert(chain_events(v, pos, octi, previous_pos, suffix, eaten_set)
                                == Err::<Seq<BoardEvent>, MoveError>(MoveError::Blocked(next_pos)));
                        }
                        return Err(MoveError::Blocked(next_pos));
                    }
                    board_events.push(BoardEvent::NewOctiPosition(previous_pos, next_pos));
                    board_events.push(BoardEvent::Div);
                    proof {
                        let capture = v.occ[in_between_pos].team != octi.team
                            && !eaten_before.to_set().contains(in_between_pos);
                        assert(did_capture == capture);
                        let hop: Seq<BoardEvent> = if capture {
                            seq![
                                BoardEvent::OctiEaten(in_between_pos),
                                BoardEvent::NewOctiPosition(previous_pos, next_pos),
                                BoardEvent::Div,
                            ]
                        } else {
                            seq![
                                BoardEvent::NewOctiPosition(previous_pos, next_pos),
                                BoardEvent::Div,
                            ]
                        };
                        assert(board_events@ =~= events_before + hop);
                        let eaten2: Set<Position> = if capture {
                            eaten_before.to_set().insert(in_between_pos)
                        } else {
                            eaten_before.to_set()
                        };
                        assert(eaten@.to_set() =~= eaten2);
                        let c2 = chain_events(v, pos, octi, next_pos, suffix.drop_first(), eaten2);
                        assert(chain_events(v, pos, octi, previous_pos, suffix, eaten_set)
                            == (match c2 {
                            Ok(rest) => Ok::<Seq<BoardEvent>, MoveError>(hop + rest),
                            Err(e) => Err::<Seq<BoardEvent>, MoveError>(e),
                        }));
                        assert(suffix.drop_first() =~= arrs@.skip(i as int + 1));
                        if c2 is Ok {
                            assert(events_before + (hop + c2.unwrap()) =~= board_events@
                                + c2.unwrap());
                        }
                    }
                    i = i + 1;
                }
                proof {
                    assert(arrs@.skip(arrs@.len() as int) =~= Seq::<Arrow>::empty());
                    assert(board_events@ + Seq::<BoardEvent>::empty() =~= board_events@);
                }
                Ok(board_events)
            },
        }
    }

    /// Derives the events of the move, applies them, and hands the turn to
    /// the other side; fails, changing nothing, exactly when derivation
    /// fails.
    fn make_move(&mut self, octi_move: &OctiMove) -> (r: Result<(), MoveError>)
        requires
            old(self).wf(),
        ensures
            final(self).wf(),
            r matches Err(e) ==> move_events_spec(old(self).bview(), *octi_move) == Err::<
                Seq<BoardEvent>,
                MoveError,
            >(e) && *final(self) == *old(self),
            r is Ok ==> move_ok(old(self).bview(), *octi_move) && final(self).bview()
                == after_move(
                old(self).bview(),
                move_events_spec(old(self).bview(), *octi_move).unwrap(),
            ),
    {
        let board_events = match self.move_events(octi_move) {
            Ok(es) => es,
            Err(e) => {
                return Err(e);
            },
        };
        proof {
            self.wf_view();
            lemma_move_events_ok(self.bview(), *octi_move);
            crate::board::model::lemma_apply_events_turn(self.bview(), board_events@);
        }
        self.process_events(board_events.as_slice());
        let t = self.turn();
        self.set_turn(t.other());
        proof {
            assert(self.bview() =~= after_move(
                old(self).bview(),
                move_events_spec(old(self).bview(), *octi_move).unwrap(),
            ));
        }
        Ok(())
    }
}

/// The text of an arrow's direction index, whether or not it denotes one
/// of the eight directions.
fn arrow_digit_text(a: &Arrow) -> String {
    if a.value() < 8 {
        a.to_text()
    } else {
        String::from_str("outside 0 to 7")
    }
}

impl MoveError {
    /// A short description of the rejection, for display, naming the cell,
    /// direction or team that violated the condition.
    pub fn message(&self) -> String {
        match self {
            MoveError::NoOcti(p) => {
                let mut out = String::from_str("no piece at ");
                out.append(p.to_text().as_str());
                out
            },
            MoveError::WrongTurn(turn, _) => match turn {
                Team::Red => String::from_str("it is red's turn"),
                Team::Green => String::from_str("it is green's turn"),
            },
            MoveError::NoArrows(t) => match t {
                Team::Red => String::from_str("red has no arrows left"),
                Team::Green => String::from_str("green has no arrows left"),
            },
            MoveError::ArrowAlreadyActive(p, a) => {
                let mut out = String::from_str("arrow ");
                out.append(arrow_digit_text(a).as_str());
                out.append(" is already active on the piece at ");
                out.append(p.to_text().as_str());
                out
            },
            MoveError::ArrowNotOnOcti(p, a) => {
                let mut out = String::from_str("the piece at ");
                out.append(p.to_text().as_str());
                out.append(" does not hold arrow ");
                out.append(arrow_digit_text(a).as_str());
                out
            },
            MoveError::OutOfBounds(p) => {
                let mut out = String::from_str("the landing position ");
                out.append(p.to_text().as_str());
                out.append(" is off the board");
                out
            },
            MoveError::NoMidpointOcti(p) => {
                let mut out = String::from_str("no piece to jump over at ");
                out.append(p.to_text().as_str());
                out
            },
            MoveError::Blocked(p) => {
                let mut out = String::from_str("the landing position ");
                out.append(p.to_text().as_str());
                out.append(" is occupied");
                out
            },
        }
    }
}

} // verus!
