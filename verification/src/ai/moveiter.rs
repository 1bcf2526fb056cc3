//! Enumeration of legal moves for the side to move: arrow placements first,
//! then movement, exploring capture chains depth-first. Chains can look
//! unbounded (a piece can see-saw through the same cells), so a branch is
//! abandoned when replaying it repeats an intermediate board state, and every
//! iterator carries a strictly decreasing measure that bounds how many
//! candidates it can still yield.

use vstd::prelude::*;

use crate::ai::board::{
    cell_index, in_grid, lemma_grid_index, lemma_index_grid, lemma_state_determined, pos_at, Board,
};
use crate::board::model::{
    apply_events, arrow_move_ok, chain_move_ok, chain_repeats_on, lemma_chain_move_arrows,
    lemma_move_events_ok, move_ok, single_move_ok, view_wf, BoardView,
};
use vstd::std_specs::cmp::PartialEqSpec;
use crate::board::{
    arrow_ok, Arrow, Boardable, BoardEvent, BoardEventProcessor, OctiMove, Position, Team,
};

verus! {

/// The arrow placement of a direction index at a position.
pub open spec fn arrow_move_at(p: Position, a: int) -> OctiMove {
    OctiMove::Arrow(p, Arrow(a as usize))
}

/// Whether a move is the one-hop movement of a direction index at a
/// position.
pub open spec fn is_single_move(m: OctiMove, p: Position, a: int) -> bool {
    match m {
        OctiMove::Move(q, c) => q == p && c@ == seq![Arrow(a as usize)],
        OctiMove::Arrow(_, _) => false,
    }
}

/// Whether a yield history holds the one-hop movement of a direction index
/// at a position.
pub open spec fn yields_single(ys: Seq<OctiMove>, p: Position, a: int) -> bool {
    exists|i: int| 0 <= i < ys.len() && is_single_move(#[trigger] ys[i], p, a)
}

/// A sound, complete and duplicate-free listing of the side to move's piece
/// positions.
pub open spec fn own_positions_wf(v: BoardView, ps: Seq<Position>) -> bool {
    &&& forall|k: int|
        0 <= k < ps.len() ==> v.occ.contains_key(#[trigger] ps[k]) && v.occ[ps[k]].team == v.turn
    &&& forall|p: Position|
        #[trigger] v.occ.contains_key(p) && v.occ[p].team == v.turn ==> ps.contains(p)
    &&& forall|i: int, j: int| 0 <= i < j < ps.len() ==> ps[i] != ps[j]
}

/// Longest chain the generator will consider. No legal chain that survives
/// the repetition guard can be longer: each hop leaves the moving piece on
/// one of 42 cells with one of at most 8 capture stages behind it, so states
/// repeat long before this length.
pub const MAX_CHAIN_LEN: usize = 400;

/// Chain length beyond which a candidate chain is replayed to look for
/// repeated intermediate states.
pub const REPLAY_THRESHOLD: usize = 3;

/// Powers of nine, the weight base of the chain-stack measure: a popped
/// chain is replaced by at most eight longer ones.
pub open spec fn pow9(k: nat) -> int
    decreases k,
{
    if k == 0 {
        1
    } else {
        9 * pow9((k - 1) as nat)
    }
}

pub proof fn lemma_pow9_pos(k: nat)
    ensures
        pow9(k) >= 1,
    decreases k,
{
    if k > 0 {
        lemma_pow9_pos((k - 1) as nat);
    }
}

/// The measure weight of a pending chain of the given length.
pub open spec fn chain_weight(len: int) -> int {
    pow9((MAX_CHAIN_LEN + 1 - len) as nat)
}

pub proof fn lemma_chain_weight_step(len: int)
    requires
        1 <= len <= MAX_CHAIN_LEN,
    ensures
        chain_weight(len) == 9 * chain_weight(len + 1),
        chain_weight(len + 1) >= 1,
{
    lemma_pow9_pos((MAX_CHAIN_LEN + 1 - (len + 1)) as nat);
}

/// Total measure weight of a stack of pending chains.
pub open spec fn stack_measure(s: Seq<Vec<Arrow>>) -> int
    decreases s.len(),
{
    if s.len() == 0 {
        0
    } else {
        stack_measure(s.drop_last()) + chain_weight(s.last()@.len() as int)
    }
}

pub proof fn lemma_stack_measure_push(s: Seq<Vec<Arrow>>, c: Vec<Arrow>)
    ensures
        stack_measure(s.push(c)) == stack_measure(s) + chain_weight(c@.len() as int),
{
    assert(s.push(c).drop_last() =~= s);
    assert(s.push(c).last() == c);
}

pub proof fn lemma_stack_measure_nonneg(s: Seq<Vec<Arrow>>)
    requires
        forall|i: int| 0 <= i < s.len() ==> (#[trigger] s[i])@.len() <= MAX_CHAIN_LEN,
    ensures
        stack_measure(s) >= 0,
    decreases s.len(),
{
    if s.len() > 0 {
        assert(forall|i: int|
            0 <= i < s.drop_last().len() ==> (#[trigger] s.drop_last()[i])@.len()
                <= MAX_CHAIN_LEN);
        lemma_stack_measure_nonneg(s.drop_last());
        lemma_pow9_pos((MAX_CHAIN_LEN + 1 - s.last()@.len()) as nat);
    }
}

/// Distributivity step used when pushing onto the chain stack.
pub proof fn lemma_mul_step(a: int, w: int)
    ensures
        a * w + w == (a + 1) * w,
{
    assert(a * w + w == (a + 1) * w) by (nonlinear_arith);
}

/// The per-position share of the movement iterator's measure.
pub open spec fn pos_term(len: int, pos_i: int) -> int {
    (len - pos_i) * (8 * chain_weight(1) + 1)
}

pub proof fn lemma_pos_term(len: int, pos_i: int)
    requires
        0 <= pos_i <= len,
    ensures
        pos_term(len, pos_i) >= 0,
        pos_i < len ==> pos_term(len, pos_i) == pos_term(len, pos_i + 1) + 8 * chain_weight(1) + 1,
{
    lemma_pow9_pos((MAX_CHAIN_LEN + 1 - 1) as nat);
    let k = 8 * chain_weight(1) + 1;
    assert((len - pos_i) * k >= 0) by (nonlinear_arith)
        requires
            len - pos_i >= 0,
            k >= 0,
    ;
    if pos_i < len {
        assert((len - pos_i) * k == (len - pos_i - 1) * k + k) by (nonlinear_arith);
    }
}

/// Prefix facts for arrow chains: every chain is a prefix of itself and of
/// its one-arrow extensions, and a prefix of an extension is the extension
/// itself or a prefix of the base chain.
proof fn lemma_prefix_facts(c: Seq<Arrow>, d: Seq<Arrow>, x: Arrow)
    ensures
        c.is_prefix_of(c),
        c.is_prefix_of(c.push(x)),
        d.is_prefix_of(c.push(x)) ==> d == c.push(x) || d.is_prefix_of(c),
{
    assert(c =~= c.subrange(0, c.len() as int));
    assert(c =~= c.push(x).subrange(0, c.len() as int));
    if d.is_prefix_of(c.push(x)) {
        if d.len() == c.len() + 1 {
            assert(d =~= c.push(x));
        } else {
            assert(d =~= c.subrange(0, d.len() as int)) by {
                assert forall|t: int| 0 <= t < d.len() implies c.subrange(
                    0,
                    d.len() as int,
                )[t] == d[t] by {
                    assert(d[t] == c.push(x).subrange(0, d.len() as int)[t]);
                }
            }
        }
    }
}

/// Chain prefixes compose.
proof fn lemma_prefix_trans(a: Seq<Arrow>, b: Seq<Arrow>, c: Seq<Arrow>)
    requires
        a.is_prefix_of(b),
        b.is_prefix_of(c),
    ensures
        a.is_prefix_of(c),
{
    assert(a =~= c.subrange(0, a.len() as int)) by {
        assert forall|t: int| 0 <= t < a.len() implies c.subrange(0, a.len() as int)[t]
            == a[t] by {
            assert(a[t] == b.subrange(0, a.len() as int)[t]);
            assert(b[t] == c.subrange(0, b.len() as int)[t]);
        }
    }
}

/// A one-arrow chain is a prefix of another exactly when they are equal.
proof fn lemma_single_prefix(x: Arrow, y: Arrow)
    ensures
        seq![x].is_prefix_of(seq![y]) <==> x == y,
{
    if seq![x].is_prefix_of(seq![y]) {
        assert(seq![x][0] == seq![y].subrange(0, 1)[0]);
    } else {
        if x == y {
            assert(seq![x] =~= seq![y].subrange(0, 1));
        }
    }
}

/// A copy of an arrow chain.
fn clone_chain(c: &Vec<Arrow>) -> (r: Vec<Arrow>)
    ensures
        r@ == c@,
{
    let mut out: Vec<Arrow> = Vec::new();
    let mut k: usize = 0;
    while k < c.len()
        invariant
            k <= c@.len(),
            out@ =~= c@.take(k as int),
        decreases c@.len() - k,
    {
        out.push(c[k]);
        k = k + 1;
    }
    proof {
        assert(out@ =~= c@);
    }
    out
}

/// Whether a list of boards holds a board equal to the given one.
fn boards_contain(list: &Vec<Board>, b: &Board) -> (r: bool)
    ensures
        r == exists|k: int| 0 <= k < list@.len() && (#[trigger] list@[k]).eq_spec(b),
{
    let mut k: usize = 0;
    while k < list.len()
        invariant
            k <= list@.len(),
            forall|j: int| 0 <= j < k ==> !(#[trigger] list@[j]).eq_spec(b),
        decreases list@.len() - k,
    {
        if list[k].eq(b) {
            return true;
        }
        k = k + 1;
    }
    false
}

/// The positions of the side to move's pieces: every one of them, each
/// once, in cell order.
fn own_positions(board: &Board) -> (r: Vec<Position>)
    requires
        board.wf(),
    ensures
        own_positions_wf(board.bview(), r@),
{
    let ghost v = board.bview();
    let turn = board.turn();
    let mut out: Vec<Position> = Vec::new();
    let mut idx: usize = 0;
    while idx < 42
        invariant
            board.wf(),
            v == board.bview(),
            turn == v.turn,
            idx <= 42,
            forall|k: int|
                0 <= k < out@.len() ==> v.occ.contains_key(#[trigger] out@[k])
                    && v.occ[out@[k]].team == turn && cell_index(out@[k]) < idx,
            forall|p: Position|
                in_grid(p) && cell_index(p) < idx && #[trigger] v.occ.contains_key(p)
                    && v.occ[p].team == turn ==> out@.contains(p),
            forall|i: int, j: int|
                0 <= i < j < out@.len() ==> cell_index(out@[i]) < cell_index(out@[j]),
        decreases 42 - idx,
    {
        proof {
            lemma_index_grid(idx as int);
        }
        let ghost out_before = out@;
        match &board.octis[idx] {
            Some(o) => {
                if o.team == turn {
                    out.push(o.pos);
                }
            },
            None => (),
        }
        proof {
            assert forall|p: Position|
                in_grid(p) && cell_index(p) < idx + 1 && #[trigger] v.occ.contains_key(p)
                    && v.occ[p].team == turn implies out@.contains(p) by {
                if cell_index(p) < idx {
                    assert(out_before.contains(p));
                    let t = choose|t: int| 0 <= t < out_before.len() && out_before[t] == p;
                    assert(out@[t] == p);
                } else {
                    lemma_grid_index(p);
                    assert(p == pos_at(idx as int));
                    assert(out@.last() == p);
                }
            }
        }
        idx = idx + 1;
    }
    proof {
        assert forall|p: Position| #[trigger]
            v.occ.contains_key(p) && v.occ[p].team == v.turn implies out@.contains(p) by {
            lemma_grid_index(p);
        }
    }
    out
}

/// Yields every legal arrow placement for the side to move: for each of its
/// pieces, each direction whose placement the board accepts, each exactly
/// once. The ghost yield history records what has come out so far.
pub struct ArrowOctiMoveIterator {
    pub board: Board,
    pub pos: Position,
    pub positions: Vec<Position>,
    pub pos_i: usize,
    pub arr_i: usize,
    pub yielded: Ghost<Seq<OctiMove>>,
}

impl ArrowOctiMoveIterator {
    /// The state this iterator enumerates moves of.
    pub open spec fn src_view(&self) -> crate::board::model::BoardView {
        self.board.bview()
    }

    /// Whether the cursor has passed candidate `(k, a)`: piece index `k`,
    /// direction index `a`.
    pub open spec fn covered(&self, k: int, a: int) -> bool {
        k < self.pos_i || (k == self.pos_i && a < self.arr_i)
    }

    pub open spec fn wf(&self) -> bool {
        &&& self.board.wf()
        &&& self.pos_i <= self.positions@.len()
        &&& self.arr_i <= 8
        &&& own_positions_wf(self.board.bview(), self.positions@)
        // Every legal placement the cursor has passed was yielded.
        &&& forall|k: int, a: int|
            0 <= k < self.positions@.len() && 0 <= a < 8 && self.covered(k, a) && move_ok(
                self.board.bview(),
                #[trigger] arrow_move_at(self.positions@[k], a),
            ) ==> self.yielded@.contains(arrow_move_at(self.positions@[k], a))
        // Everything yielded is a placement the cursor has passed.
        &&& forall|i: int|
            0 <= i < self.yielded@.len() ==> exists|k: int, a: int|
                0 <= k < self.positions@.len() && 0 <= a < 8 && self.covered(k, a)
                    && #[trigger] self.yielded@[i] == arrow_move_at(self.positions@[k], a)
    }

    /// An upper bound on how many more candidates this iterator can touch;
    /// every yield strictly decreases it.
    pub open spec fn measure(&self) -> int {
        (self.positions@.len() - self.pos_i) * 9 + (8 - self.arr_i)
    }

    /// The next legal arrow placement, if any is left: one that was not
    /// yielded before; `None` only once every legal placement has been
    /// yielded.
    pub fn next(&mut self) -> (r: Option<OctiMove>)
        requires
            old(self).wf(),
        ensures
            final(self).wf(),
            final(self).board == old(self).board,
            final(self).positions == old(self).positions,
            final(self).measure() >= 0,
            final(self).measure() <= old(self).measure(),
            r matches Some(m) ==> move_ok(old(self).src_view(), m) && (m matches OctiMove::Arrow(
                _,
                _,
            )) && final(self).measure() < old(self).measure() && final(self).yielded@ == old(
                self,
            ).yielded@.push(m) && !old(self).yielded@.contains(m) && old(self).pos_i < old(
                self,
            ).positions@.len(),
            r is None ==> final(self).yielded@ == old(self).yielded@ && final(self).pos_i
                >= final(self).positions@.len() && forall|p: Position, ar: Arrow| #[trigger]
                arrow_move_ok(old(self).src_view(), p, ar) ==> final(self).yielded@.contains(
                OctiMove::Arrow(p, ar),
            ),
    {
        loop
            invariant
                self.wf(),
                self.board == old(self).board,
                self.positions == old(self).positions,
                self.yielded@ == old(self).yielded@,
                self.measure() <= old(self).measure(),
            decreases self.measure(),
        {
            if self.pos_i >= self.positions.len() {
                proof {
                    let v = self.board.bview();
                    assert forall|p: Position, ar: Arrow| #[trigger]
                        arrow_move_ok(v, p, ar) implies self.yielded@.contains(
                        OctiMove::Arrow(p, ar),
                    ) by {
                        assert(v.occ.contains_key(p) && v.occ[p].team == v.turn && arrow_ok(ar));
                        assert(self.positions@.contains(p));
                        let k = choose|k: int|
                            0 <= k < self.positions@.len() && self.positions@[k] == p;
                        assert(self.covered(k, ar.0 as int));
                        assert(arrow_move_at(self.positions@[k], ar.0 as int) == OctiMove::Arrow(
                            p,
                            ar,
                        ));
                    }
                }
                return None;
            }
            let ghost pre = *self;
            if self.arr_i >= 8 {
                self.pos_i = self.pos_i + 1;
                self.arr_i = 0;
                proof {
                    assert forall|k: int, a: int|
                        0 <= k < self.positions@.len() && 0 <= a < 8 && self.covered(k, a)
                            && move_ok(
                            self.board.bview(),
                            #[trigger] arrow_move_at(self.positions@[k], a),
                        ) implies self.yielded@.contains(arrow_move_at(self.positions@[k], a)) by {
                        assert(pre.covered(k, a));
                    }
                    assert forall|i: int| 0 <= i < self.yielded@.len() implies exists|
                        k: int,
                        a: int,
                    |
                        0 <= k < self.positions@.len() && 0 <= a < 8 && self.covered(k, a)
                            && #[trigger] self.yielded@[i] == arrow_move_at(
                            self.positions@[k],
                            a,
                        ) by {
                        let (k, a) = choose|k: int, a: int|
                            0 <= k < pre.positions@.len() && 0 <= a < 8 && pre.covered(k, a)
                                && pre.yielded@[i] == arrow_move_at(pre.positions@[k], a);
                        assert(self.covered(k, a));
                    }
                }
            } else {
                let pos = self.positions[self.pos_i];
                let arr = Arrow(self.arr_i);
                let m = OctiMove::Arrow(pos, arr);
                let valid = self.board.is_move_valid(&m);
                self.arr_i = self.arr_i + 1;
                proof {
                    assert(m == arrow_move_at(pre.positions@[pre.pos_i as int], pre.arr_i as int));
                    assert forall|i: int| 0 <= i < self.yielded@.len() implies exists|
                        k: int,
                        a: int,
                    |
                        0 <= k < self.positions@.len() && 0 <= a < 8 && self.covered(k, a)
                            && #[trigger] self.yielded@[i] == arrow_move_at(
                            self.positions@[k],
                            a,
                        ) by {
                        let (k, a) = choose|k: int, a: int|
                            0 <= k < pre.positions@.len() && 0 <= a < 8 && pre.covered(k, a)
                                && pre.yielded@[i] == arrow_move_at(pre.positions@[k], a);
                        assert(self.covered(k, a));
                    }
                }
                if valid {
                    proof {
                        // A repeat yield would name a cursor pair already
                        // passed for this very piece and direction, which
                        // the cursor has not passed.
                        assert(!pre.yielded@.contains(m)) by {
                            if pre.yielded@.contains(m) {
                                let i = choose|i: int|
                                    0 <= i < pre.yielded@.len() && pre.yielded@[i] == m;
                                let (k, a) = choose|k: int, a: int|
                                    0 <= k < pre.positions@.len() && 0 <= a < 8 && pre.covered(
                                        k,
                                        a,
                                    ) && pre.yielded@[i] == arrow_move_at(pre.positions@[k], a);
                                assert(pre.positions@[k] == pre.positions@[pre.pos_i as int]);
                                assert(k == pre.pos_i as int);
                                assert(a == pre.arr_i as int);
                            }
                        }
                    }
                    let ghost ys = self.yielded@;
                    proof {
                        self.yielded@ = ys.push(m);
                    }
                    proof {
                        assert forall|k: int, a: int|
                            0 <= k < self.positions@.len() && 0 <= a < 8 && self.covered(k, a)
                                && move_ok(
                                self.board.bview(),
                                #[trigger] arrow_move_at(self.positions@[k], a),
                            ) implies self.yielded@.contains(
                            arrow_move_at(self.positions@[k], a),
                        ) by {
                            let mv = arrow_move_at(self.positions@[k], a);
                            if k == pre.pos_i as int && a == pre.arr_i as int {
                                assert(self.yielded@.last() == m);
                            } else {
                                assert(pre.covered(k, a));
                                let i = choose|i: int|
                                    0 <= i < ys.len() && ys[i] == mv;
                                assert(self.yielded@[i] == mv);
                            }
                        }
                        assert forall|i: int| 0 <= i < self.yielded@.len() implies exists|
                            k: int,
                            a: int,
                        |
                            0 <= k < self.positions@.len() && 0 <= a < 8 && self.covered(k, a)
                                && #[trigger] self.yielded@[i] == arrow_move_at(
                                self.positions@[k],
                                a,
                            ) by {
                            if i < ys.len() {
                                let (k, a) = choose|k: int, a: int|
                                    0 <= k < pre.positions@.len() && 0 <= a < 8 && pre.covered(
                                        k,
                                        a,
                                    ) && ys[i] == arrow_move_at(pre.positions@[k], a);
                                assert(self.covered(k, a));
                                assert(self.yielded@[i] == ys[i]);
                            } else {
                                assert(self.yielded@[i] == m);
                                assert(self.covered(pre.pos_i as int, pre.arr_i as int));
                            }
                        }
                    }
                    return Some(m);
                } else {
                    proof {
                        assert forall|k: int, a: int|
                            0 <= k < self.positions@.len() && 0 <= a < 8 && self.covered(k, a)
                                && move_ok(
                                self.board.bview(),
                                #[trigger] arrow_move_at(self.positions@[k], a),
                            ) implies self.yielded@.contains(
                            arrow_move_at(self.positions@[k], a),
                        ) by {
                            if !(k == pre.pos_i as int && a == pre.arr_i as int) {
                                assert(pre.covered(k, a));
                            }
                        }
                    }
                }
            }
        }
    }
}

/// Whether a pending chain at the current piece leads to (or is) the chain
/// of an already yielded movement there.
pub open spec fn pending_overlaps(c: Seq<Arrow>, q: Position, m: OctiMove) -> bool {
    match m {
        OctiMove::Move(p2, c2) => p2 == q && c.is_prefix_of(c2@),
        OctiMove::Arrow(_, _) => false,
    }
}

/// Whether a move is the movement of the given chain at a position.
pub open spec fn is_chain_move(m: OctiMove, p: Position, c: Seq<Arrow>) -> bool {
    match m {
        OctiMove::Move(q, cv) => q == p && cv@ == c,
        OctiMove::Arrow(_, _) => false,
    }
}

/// Whether a yield history holds the movement of the given chain.
pub open spec fn yields_chain(ys: Seq<OctiMove>, p: Position, c: Seq<Arrow>) -> bool {
    exists|i: int| 0 <= i < ys.len() && is_chain_move(#[trigger] ys[i], p, c)
}

/// A chain the generator owes at a piece, and exactly what it yields:
/// nonempty, within the length bound, every prefix of it a legal
/// movement, and no prefix beyond the replay threshold repeating an
/// intermediate state.
pub open spec fn survives_guard(v: BoardView, p: Position, c: Seq<Arrow>) -> bool {
    &&& 1 <= c.len() <= MAX_CHAIN_LEN
    &&& forall|k: int| 1 <= k <= c.len() ==> chain_move_ok(v, p, #[trigger] c.take(k))
    &&& forall|k: int|
        REPLAY_THRESHOLD < k <= c.len() ==> !chain_repeats_on(v, p, #[trigger] c.take(k))
}

/// A chain's initial segments are prefixes in the sequence sense.
proof fn lemma_take_prefix(c: Seq<Arrow>, k: int)
    requires
        0 <= k <= c.len(),
    ensures
        c.take(k).is_prefix_of(c),
{
    assert(c.take(k) =~= c.subrange(0, k));
}

/// A yielded movement: an owed `Move` of one of the first `upto` listed
/// pieces.
pub open spec fn yielded_move_ok(v: BoardView, ps: Seq<Position>, upto: int, m: OctiMove) -> bool {
    match m {
        OctiMove::Move(q, c) => move_ok(v, m) && survives_guard(v, q, c@) && exists|k: int|
            0 <= k < upto && k < ps.len() && ps[k] == q,
        OctiMove::Arrow(_, _) => false,
    }
}

/// Yields every movement candidate for the side to move: for each of its
/// pieces, single steps and capture chains, depth-first; a chain that
/// validates is yielded and also extended by each direction. Branches whose
/// replay repeats a board state are abandoned. The ghost yield history
/// records what has come out so far; no chain comes out twice, and every
/// legal one-hop movement comes out.
pub struct MoveOctiMoveIterator {
    pub board: Board,
    pub pos: Position,
    pub positions: Vec<Position>,
    pub pos_i: usize,
    pub check_stack: Vec<Vec<Arrow>>,
    pub yielded: Ghost<Seq<OctiMove>>,
}

impl MoveOctiMoveIterator {
    /// The state this iterator enumerates moves of.
    pub open spec fn src_view(&self) -> crate::board::model::BoardView {
        self.board.bview()
    }

    /// Piece indices fully explored: all of them up to `pos_i` when no
    /// chain is pending, all before the current piece otherwise.
    pub open spec fn done_upto(&self) -> int {
        if self.check_stack@.len() == 0 {
            self.pos_i as int
        } else {
            self.pos_i - 1
        }
    }

    pub open spec fn wf(&self) -> bool {
        &&& self.board.wf()
        &&& self.pos_i <= self.positions@.len()
        &&& forall|i: int|
            0 <= i < self.check_stack@.len() ==> 1 <= (#[trigger] self.check_stack@[i])@.len()
                <= MAX_CHAIN_LEN
        &&& own_positions_wf(self.board.bview(), self.positions@)
        // No pending chain is a prefix of another, so none is examined
        // twice.
        &&& forall|i: int, j: int|
            0 <= i < self.check_stack@.len() && 0 <= j < self.check_stack@.len() && i != j ==> !(
            #[trigger] self.check_stack@[i])@.is_prefix_of((#[trigger] self.check_stack@[j])@)
        // No pending chain reaches a movement already yielded at this
        // piece.
        &&& forall|i: int, j: int|
            0 <= i < self.check_stack@.len() && 0 <= j < self.yielded@.len()
                ==> !pending_overlaps(
                (#[trigger] self.check_stack@[i])@,
                self.pos,
                #[trigger] self.yielded@[j],
            )
        // Every proper prefix of a pending chain was found legal and not
        // cut by the repetition guard.
        &&& forall|i: int, k: int|
            0 <= i < self.check_stack@.len() && 1 <= k < (self.check_stack@[i])@.len()
                ==> chain_move_ok(
                self.board.bview(),
                self.pos,
                #[trigger] (self.check_stack@[i])@.take(k),
            ) && (k > REPLAY_THRESHOLD ==> !chain_repeats_on(
                self.board.bview(),
                self.pos,
                (self.check_stack@[i])@.take(k),
            ))
        // Everything yielded is an owed movement of a piece already taken
        // up.
        &&& forall|j: int|
            0 <= j < self.yielded@.len() ==> yielded_move_ok(
                self.board.bview(),
                self.positions@,
                self.pos_i as int,
                #[trigger] self.yielded@[j],
            )
        // Every owed chain of a fully explored piece was yielded.
        &&& forall|k: int, c: Seq<Arrow>|
            0 <= k < self.positions@.len() && k < self.done_upto() && #[trigger] survives_guard(
                self.board.bview(),
                self.positions@[k],
                c,
            ) ==> yields_chain(self.yielded@, self.positions@[k], c)
        // Pending chains belong to the current piece, whose owed chains
        // are each already yielded or still reachable from a pending one.
        &&& self.check_stack@.len() > 0 ==> 1 <= self.pos_i && self.pos
            == self.positions@[self.pos_i - 1] && (forall|c: Seq<Arrow>| #[trigger]
            survives_guard(self.board.bview(), self.pos, c) ==> yields_chain(
                self.yielded@,
                self.pos,
                c,
            ) || exists|i: int|
                0 <= i < self.check_stack@.len() && (#[trigger] self.check_stack@[i])@.is_prefix_of(
                    c,
                ))
    }

    /// An upper bound on how many more candidates this iterator can touch;
    /// every yield strictly decreases it.
    pub open spec fn measure(&self) -> int {
        stack_measure(self.check_stack@) + (self.positions@.len() - self.pos_i) * (8 * chain_weight(
            1,
        ) + 1)
    }

    /// Replays a legal movement hop by hop on a scratch copy of the board
    /// and reports exactly whether an intermediate state repeats.
    fn chain_repeats(&self, octi_move: &OctiMove) -> (r: bool)
        requires
            self.board.wf(),
            move_ok(self.board.bview(), *octi_move),
        ensures
            *octi_move matches OctiMove::Move(p, c) ==> r == chain_repeats_on(
                self.board.bview(),
                p,
                c@,
            ),
    {
        let ghost v = self.board.bview();
        let events = match self.board.move_events(octi_move) {
            Ok(es) => es,
            Err(_) => {
                return false;
            },
        };
        let ghost es = events@;
        let mut scratch = self.board.clone();
        proof {
            self.board.wf_view();
            lemma_move_events_ok(v, *octi_move);
            assert(es.skip(0) =~= es);
            assert(es.take(0) =~= Seq::<BoardEvent>::empty());
        }
        let mut visited: Vec<Board> = Vec::new();
        let ghost mut div_idxs: Seq<int> = Seq::empty();
        let mut i: usize = 0;
        while i < events.len()
            invariant
                self.board.wf(),
                v == self.board.bview(),
                view_wf(v),
                events@ == es,
                move_ok(v, *octi_move),
                es == crate::board::model::move_events_spec(v, *octi_move).unwrap(),
                scratch.wf(),
                i <= es.len(),
                scratch.bview() == apply_events(v, es.take(i as int)),
                crate::board::model::events_ok(scratch.bview(), es.skip(i as int)),
                visited@.len() == div_idxs.len(),
                forall|k: int|
                    0 <= k < div_idxs.len() ==> 0 <= #[trigger] div_idxs[k] < i
                        && es[div_idxs[k]] is Div,
                forall|k: int|
                    0 <= k < div_idxs.len() ==> (#[trigger] visited@[k]).wf()
                        && visited@[k].bview() == apply_events(v, es.take(div_idxs[k] + 1)),
                forall|t: int|
                    0 <= t < i && #[trigger] es[t] is Div ==> exists|k: int|
                        0 <= k < div_idxs.len() && div_idxs[k] == t,
                forall|i2: int, j2: int|
                    0 <= i2 < j2 < i && #[trigger] es[i2] is Div && #[trigger] es[j2] is Div
                        ==> apply_events(v, es.take(i2 + 1)) != apply_events(v, es.take(j2 + 1)),
            decreases es.len() - i,
        {
            proof {
                assert(es.skip(i as int).first() == es[i as int]);
                assert(es.skip(i as int).drop_first() =~= es.skip(i as int + 1));
            }
            let mut one: Vec<BoardEvent> = Vec::new();
            one.push(events[i]);
            proof {
                assert(one@ =~= seq![es[i as int]]);
                crate::board::model::lemma_single_event(scratch.bview(), es[i as int]);
                assert(es.take(i as int + 1) =~= es.take(i as int).push(es[i as int]));
                crate::board::model::lemma_apply_events_push(v, es.take(i as int), es[i as int]);
            }
            let is_div = matches!(events[i], BoardEvent::Div);
            scratch.process_events(one.as_slice());
            if is_div {
                if boards_contain(&visited, &scratch) {
                    proof {
                        let k = choose|k: int|
                            0 <= k < visited@.len() && (#[trigger] visited@[k]).eq_spec(&scratch);
                        assert(visited@[k].bview() == scratch.bview());
                        assert(es[div_idxs[k]] is Div && es[i as int] is Div);
                        assert(apply_events(v, es.take(div_idxs[k] + 1)) == apply_events(
                            v,
                            es.take(i as int + 1),
                        ));
                    }
                    return true;
                }
                proof {
                    // this hop's state is new: it differs from the state
                    // after every earlier hop
                    assert forall|i2: int, j2: int|
                        0 <= i2 < j2 < i + 1 && #[trigger] es[i2] is Div
                            && #[trigger] es[j2] is Div implies apply_events(v, es.take(i2 + 1))
                        != apply_events(v, es.take(j2 + 1)) by {
                        if j2 == i as int {
                            let k = choose|k: int| 0 <= k < div_idxs.len() && div_idxs[k] == i2;
                            if apply_events(v, es.take(i2 + 1)) == apply_events(
                                v,
                                es.take(j2 + 1),
                            ) {
                                lemma_state_determined(visited@[k], scratch);
                            }
                        }
                    }
                    let old_div = div_idxs;
                    div_idxs = div_idxs.push(i as int);
                    assert forall|t: int|
                        0 <= t < i + 1 && #[trigger] es[t] is Div implies exists|k: int|
                        0 <= k < div_idxs.len() && div_idxs[k] == t by {
                        if t == i as int {
                            assert(div_idxs[div_idxs.len() - 1] == t);
                        } else {
                            let k0 = choose|k: int| 0 <= k < old_div.len() && old_div[k] == t;
                            assert(div_idxs[k0] == t);
                        }
                    }
                }
                visited.push(scratch.clone());
            }
            i = i + 1;
        }
        proof {
            assert(es.take(es.len() as int) =~= es);
        }
        false
    }

    /// The next movement candidate, if any is left: an owed chain that
    /// was not yielded before; `None` only once every owed chain has been
    /// yielded.
    #[verifier::rlimit(100)]
    pub fn next(&mut self) -> (r: Option<OctiMove>)
        requires
            old(self).wf(),
        ensures
            final(self).wf(),
            final(self).board == old(self).board,
            final(self).positions == old(self).positions,
            final(self).measure() >= 0,
            final(self).measure() <= old(self).measure(),
            r matches Some(m) ==> move_ok(old(self).src_view(), m) && (m matches OctiMove::Move(
                _,
                _,
            )) && final(self).measure() < old(self).measure(),
            r matches Some(m) ==> (m matches OctiMove::Move(q, c) && survives_guard(
                old(self).src_view(),
                q,
                c@,
            )),
            r matches Some(m) ==> final(self).yielded@ == old(self).yielded@.push(m) && !old(
                self,
            ).yielded@.contains(m),
            r is None ==> final(self).yielded@ == old(self).yielded@ && forall|
                p: Position,
                c: Seq<Arrow>,
            | #[trigger]
                survives_guard(old(self).src_view(), p, c) ==> yields_chain(
                    final(self).yielded@,
                    p,
                    c,
                ),
            r is None ==> forall|p: Position, a: int|
                0 <= a < 8 && #[trigger] single_move_ok(old(self).src_view(), p, a)
                    ==> yields_single(final(self).yielded@, p, a),
    {
        proof {
            lemma_stack_measure_nonneg(self.check_stack@);
            lemma_pos_term(self.positions@.len() as int, self.pos_i as int);
        }
        loop
            invariant
                self.wf(),
                self.board == old(self).board,
                self.positions == old(self).positions,
                self.yielded@ == old(self).yielded@,
                self.measure() <= old(self).measure(),
                self.measure() >= 0,
            decreases self.measure(),
        {
            let ghost positions_body = self.positions@;
            let ghost pos_i_body = self.pos_i as int;
            if self.check_stack.len() == 0 {
                if self.pos_i >= self.positions.len() {
                    proof {
                        let v = self.board.bview();
                        assert forall|p: Position, c: Seq<Arrow>| #[trigger]
                            survives_guard(v, p, c) implies yields_chain(
                            self.yielded@,
                            p,
                            c,
                        ) by {
                            assert(chain_move_ok(v, p, c.take(1)));
                            assert(v.occ.contains_key(p) && v.occ[p].team == v.turn);
                            assert(self.positions@.contains(p));
                            let k = choose|k: int|
                                0 <= k < self.positions@.len() && self.positions@[k] == p;
                            assert(k < self.done_upto());
                            assert(survives_guard(v, self.positions@[k], c));
                        }
                        assert forall|p: Position, a: int|
                            0 <= a < 8 && #[trigger] single_move_ok(v, p, a) implies yields_single(
                            self.yielded@,
                            p,
                            a,
                        ) by {
                            let c1 = seq![Arrow(a as usize)];
                            assert(c1.take(1) =~= c1);
                            assert(survives_guard(v, p, c1));
                            let i = choose|i: int|
                                0 <= i < self.yielded@.len() && is_chain_move(
                                    self.yielded@[i],
                                    p,
                                    c1,
                                );
                            assert(is_single_move(self.yielded@[i], p, a));
                        }
                    }
                    return None;
                }
                proof {
                    lemma_pos_term(self.positions@.len() as int, self.pos_i as int);
                }
                let ghost pre = *self;
                self.pos = self.positions[self.pos_i];
                self.pos_i = self.pos_i + 1;
                let mut a: usize = 0;
                while a < 8
                    invariant
                        self.board == old(self).board,
                        self.board.wf(),
                        own_positions_wf(self.board.bview(), self.positions@),
                        a <= 8,
                        self.positions == old(self).positions,
                        self.yielded@ == pre.yielded@,
                        self.pos_i == pos_i_body + 1,
                        self.pos_i <= self.positions@.len(),
                        self.pos == self.positions@[self.pos_i - 1],
                        self.check_stack@.len() == a,
                        forall|t: int|
                            0 <= t < a ==> (#[trigger] self.check_stack@[t])@ == seq![
                                Arrow(t as usize),
                            ],
                        stack_measure(self.check_stack@) == a * chain_weight(1),
                    decreases 8 - a,
                {
                    let ghost st = self.check_stack@;
                    let mut c: Vec<Arrow> = Vec::new();
                    c.push(Arrow(a));
                    self.check_stack.push(c);
                    proof {
                        assert(c@ =~= seq![Arrow(a as int as usize)]);
                        lemma_stack_measure_push(st, c);
                        lemma_mul_step(a as int, chain_weight(1));
                    }
                    a = a + 1;
                }
                proof {
                    let v = self.board.bview();
                    lemma_pow9_pos((MAX_CHAIN_LEN + 1 - 1) as nat);
                    lemma_pos_term(self.positions@.len() as int, self.pos_i as int);
                    // the eight fresh one-arrow chains are pairwise distinct
                    assert forall|i: int, j: int|
                        0 <= i < self.check_stack@.len() && 0 <= j < self.check_stack@.len() && i
                            != j implies !(#[trigger] self.check_stack@[i])@.is_prefix_of(
                        (#[trigger] self.check_stack@[j])@,
                    ) by {
                        lemma_single_prefix(Arrow(i as usize), Arrow(j as usize));
                    }
                    // nothing was yielded yet at the piece just taken up
                    assert forall|i: int, j: int|
                        0 <= i < self.check_stack@.len() && 0 <= j
                            < self.yielded@.len() implies !pending_overlaps(
                        (#[trigger] self.check_stack@[i])@,
                        self.pos,
                        #[trigger] self.yielded@[j],
                    ) by {
                        assert(yielded_move_ok(
                            v,
                            self.positions@,
                            pre.pos_i as int,
                            self.yielded@[j],
                        ));
                        match self.yielded@[j] {
                            OctiMove::Move(q, c2) => {
                                if q == self.pos {
                                    let k = choose|k: int|
                                        0 <= k < pre.pos_i && k < self.positions@.len()
                                            && self.positions@[k] == q;
                                    assert(self.positions@[k] == self.positions@[pre.pos_i as int]);
                                    assert(false);
                                }
                            },
                            OctiMove::Arrow(_, _) => (),
                        }
                    }
                    // every owed chain of this piece starts with one of the
                    // eight pending one-arrow chains
                    assert forall|c: Seq<Arrow>| #[trigger]
                        survives_guard(v, self.pos, c) implies yields_chain(
                        self.yielded@,
                        self.pos,
                        c,
                    ) || exists|i: int|
                        0 <= i < self.check_stack@.len() && (
                        #[trigger] self.check_stack@[i])@.is_prefix_of(c) by {
                        assert(chain_move_ok(v, self.pos, c.take(1)));
                        lemma_chain_move_arrows(v, self.pos, c.take(1));
                        assert(arrow_ok(c.take(1)[0]));
                        let b = c[0].0;
                        assert(c[0] == Arrow(b));
                        assert((self.check_stack@[b as int])@ == seq![Arrow(b)]);
                        assert(c.take(1) =~= seq![Arrow(b)]);
                        lemma_take_prefix(c, 1);
                        assert((self.check_stack@[b as int])@.is_prefix_of(c));
                    }
                    assert(self.wf());
                }
            } else {
                let ghost pre = *self;
                let ghost st = self.check_stack@;
                let chain = self.check_stack.pop().unwrap();
                let ghost ch = chain@;
                proof {
                    assert(st.drop_last() =~= self.check_stack@);
                    lemma_stack_measure_nonneg(self.check_stack@);
                    lemma_pow9_pos((MAX_CHAIN_LEN + 1 - chain@.len()) as nat);
                    lemma_pos_term(self.positions@.len() as int, self.pos_i as int);
                    lemma_prefix_facts(ch, ch, Arrow(0));
                }
                let consider = OctiMove::Move(self.pos, chain);
                let valid = self.board.is_move_valid(&consider);
                proof {
                    assert(move_ok(self.board.bview(), consider) == chain_move_ok(
                        self.board.bview(),
                        pre.pos,
                        ch,
                    ));
                }
                let mut discard = !valid;
                if valid {
                    if chain_len_of(&consider) > REPLAY_THRESHOLD && self.chain_repeats(
                        &consider,
                    ) {
                        discard = true;
                    }
                }
                if !discard {
                    let chain2 = match &consider {
                        OctiMove::Move(_, c) => c,
                        OctiMove::Arrow(_, _) => {
                            return None;
                        },
                    };
                    let ghost base_stack = self.check_stack@;
                    if chain2.len() < MAX_CHAIN_LEN {
                        let mut a: usize = 0;
                        let ghost base = stack_measure(self.check_stack@);
                        let ghost clen = chain2@.len() as int;
                        while a < 8
                            invariant
                                self.board == old(self).board,
                                self.board.wf(),
                                own_positions_wf(self.board.bview(), self.positions@),
                                a <= 8,
                                self.positions == old(self).positions,
                                self.yielded@ == pre.yielded@,
                                self.pos == pre.pos,
                                self.pos_i == pos_i_body,
                                self.pos_i <= self.positions@.len(),
                                move_ok(old(self).src_view(), consider),
                                1 <= chain2@.len() < MAX_CHAIN_LEN,
                                chain2@.len() == clen,
                                chain2@ == ch,
                                consider == OctiMove::Move(self.pos, *chain2),
                                self.check_stack@.len() == base_stack.len() + a,
                                forall|t: int|
                                    0 <= t < base_stack.len() ==> self.check_stack@[t]
                                        == base_stack[t],
                                forall|t: int|
                                    base_stack.len() <= t < self.check_stack@.len() ==> (
                                    #[trigger] self.check_stack@[t])@ == ch.push(
                                        Arrow((t - base_stack.len()) as usize),
                                    ),
                                forall|t: int|
                                    0 <= t < self.check_stack@.len() ==> 1 <= (
                                    #[trigger] self.check_stack@[t])@.len() <= MAX_CHAIN_LEN,
                                stack_measure(self.check_stack@) == base + a * chain_weight(
                                    clen + 1,
                                ),
                            decreases 8 - a,
                        {
                            let ghost st2 = self.check_stack@;
                            let mut c2 = clone_chain(chain2);
                            c2.push(Arrow(a));
                            self.check_stack.push(c2);
                            proof {
                                assert(c2@ =~= ch.push(Arrow(a as int as usize)));
                                lemma_stack_measure_push(st2, c2);
                                lemma_mul_step(a as int, chain_weight(clen + 1));
                            }
                            a = a + 1;
                        }
                        proof {
                            lemma_chain_weight_step(clen);
                            lemma_stack_measure_nonneg(self.check_stack@);
                            lemma_pos_term(self.positions@.len() as int, self.pos_i as int);
                        }
                    }
                    proof {
                        // the popped chain was pending, so its movement was
                        // not yielded before
                        assert(!pre.yielded@.contains(consider)) by {
                            if pre.yielded@.contains(consider) {
                                let j = choose|j: int|
                                    0 <= j < pre.yielded@.len() && pre.yielded@[j] == consider;
                                assert(pending_overlaps(
                                    (st[st.len() - 1])@,
                                    pre.pos,
                                    pre.yielded@[j],
                                ));
                            }
                        }
                        // the popped chain is owed: its proper prefixes were
                        // found legal and uncut while it sat on the stack,
                        // and it was just found legal and uncut itself
                        assert(survives_guard(self.board.bview(), pre.pos, ch)) by {
                            let v = self.board.bview();
                            assert forall|k: int| 1 <= k <= ch.len() implies chain_move_ok(
                                v,
                                pre.pos,
                                #[trigger] ch.take(k),
                            ) by {
                                if k < ch.len() {
                                    assert((st[st.len() - 1])@.take(k) == ch.take(k));
                                } else {
                                    assert(ch.take(k) =~= ch);
                                }
                            }
                            assert forall|k: int|
                                REPLAY_THRESHOLD < k <= ch.len() implies !chain_repeats_on(
                                v,
                                pre.pos,
                                #[trigger] ch.take(k),
                            ) by {
                                if k < ch.len() {
                                    assert((st[st.len() - 1])@.take(k) == ch.take(k));
                                } else {
                                    assert(ch.take(k) =~= ch);
                                }
                            }
                        }
                    }
                    let ghost ys = self.yielded@;
                    proof {
                        self.yielded@ = ys.push(consider);
                    }
                    proof {
                        let v = self.board.bview();
                        let stk = self.check_stack@;
                        let bl = base_stack.len() as int;
                        assert(base_stack == st.drop_last());
                        assert forall|t: int| 0 <= t < bl implies stk[t] == st[t] by {
                            assert(stk[t] == base_stack[t]);
                        }
                        // entries still pending are pairwise non-prefix
                        assert forall|i: int, j: int|
                            0 <= i < stk.len() && 0 <= j < stk.len() && i != j implies !(
                        #[trigger] stk[i])@.is_prefix_of((#[trigger] stk[j])@) by {
                            if i < bl && j < bl {
                                assert(st[i] == stk[i] && st[j] == stk[j]);
                            } else if i < bl {
                                let d = (stk[i])@;
                                let c2 = (stk[j])@;
                                assert(c2 == ch.push(Arrow((j - bl) as usize)));
                                lemma_prefix_facts(ch, d, Arrow((j - bl) as usize));
                                assert(st[i] == stk[i]);
                                if d.is_prefix_of(c2) {
                                    if d == c2 {
                                        lemma_prefix_facts(ch, ch, Arrow((j - bl) as usize));
                                        lemma_prefix_trans(
                                            ch,
                                            ch.push(Arrow((j - bl) as usize)),
                                            d,
                                        );
                                        assert((st[st.len() - 1])@.is_prefix_of((st[i])@));
                                    } else {
                                        assert(d.is_prefix_of(ch));
                                        assert((st[i])@.is_prefix_of((st[st.len() - 1])@));
                                    }
                                    assert(false);
                                }
                            } else if j < bl {
                                let c2 = (stk[i])@;
                                let d = (stk[j])@;
                                assert(c2 == ch.push(Arrow((i - bl) as usize)));
                                assert(st[j] == stk[j]);
                                if c2.is_prefix_of(d) {
                                    lemma_prefix_facts(ch, ch, Arrow((i - bl) as usize));
                                    lemma_prefix_trans(ch, c2, d);
                                    assert((st[st.len() - 1])@.is_prefix_of((st[j])@));
                                    assert(false);
                                }
                            } else {
                                let c2a = (stk[i])@;
                                let c2b = (stk[j])@;
                                assert(c2a == ch.push(Arrow((i - bl) as usize)));
                                assert(c2b == ch.push(Arrow((j - bl) as usize)));
                                lemma_prefix_facts(ch, c2a, Arrow((j - bl) as usize));
                                if c2a.is_prefix_of(c2b) {
                                    assert(c2a.len() == ch.len() + 1);
                                    assert(!c2a.is_prefix_of(ch));
                                    assert(c2a == c2b);
                                    assert(c2a.last() == Arrow((i - bl) as usize));
                                    assert(c2b.last() == Arrow((j - bl) as usize));
                                    assert(false);
                                }
                            }
                        }
                        // no pending chain reaches a yielded movement
                        assert forall|i: int, j: int|
                            0 <= i < stk.len() && 0 <= j
                                < self.yielded@.len() implies !pending_overlaps(
                            (#[trigger] stk[i])@,
                            self.pos,
                            #[trigger] self.yielded@[j],
                        ) by {
                            if pending_overlaps((stk[i])@, self.pos, self.yielded@[j]) {
                                match self.yielded@[j] {
                                    OctiMove::Move(q, cy) => {
                                        if j < ys.len() {
                                            if i < bl {
                                                assert(st[i] == stk[i]);
                                                assert(pending_overlaps(
                                                    (st[i])@,
                                                    pre.pos,
                                                    pre.yielded@[j],
                                                ));
                                            } else {
                                                assert((stk[i])@ == ch.push(
                                                    Arrow((i - bl) as usize),
                                                ));
                                                lemma_prefix_facts(
                                                    ch,
                                                    ch,
                                                    Arrow((i - bl) as usize),
                                                );
                                                lemma_prefix_trans(
                                                    ch,
                                                    ch.push(Arrow((i - bl) as usize)),
                                                    cy@,
                                                );
                                                assert(pending_overlaps(
                                                    (st[st.len() - 1])@,
                                                    pre.pos,
                                                    pre.yielded@[j],
                                                ));
                                            }
                                        } else {
                                            assert(self.yielded@[j] == consider);
                                            assert(cy@ == ch);
                                            if i < bl {
                                                assert(st[i] == stk[i]);
                                                assert((st[i])@.is_prefix_of(
                                                    (st[st.len() - 1])@,
                                                ));
                                            } else {
                                                assert((stk[i])@ == ch.push(
                                                    Arrow((i - bl) as usize),
                                                ));
                                                assert((stk[i])@.len() > ch.len());
                                            }
                                        }
                                        assert(false);
                                    },
                                    OctiMove::Arrow(_, _) => (),
                                }
                            }
                        }
                        // proper prefixes of pending chains stay legal and
                        // uncut
                        assert forall|i: int, k: int|
                            0 <= i < stk.len() && 1 <= k < (stk[i])@.len() implies chain_move_ok(
                            v,
                            self.pos,
                            #[trigger] (stk[i])@.take(k),
                        ) && (k > REPLAY_THRESHOLD ==> !chain_repeats_on(
                            v,
                            self.pos,
                            (stk[i])@.take(k),
                        )) by {
                            if i < bl {
                                assert(stk[i] == st[i]);
                                assert((st[i])@.take(k) == (stk[i])@.take(k));
                            } else {
                                assert((stk[i])@ == ch.push(Arrow((i - bl) as usize)));
                                assert((stk[i])@.take(k) =~= ch.take(k));
                                if k < ch.len() {
                                    assert((st[st.len() - 1])@.take(k) == ch.take(k));
                                } else {
                                    assert(ch.take(k) =~= ch);
                                }
                            }
                        }
                        // everything yielded is an owed movement of a piece
                        // already taken up
                        assert forall|j: int| 0 <= j < self.yielded@.len() implies yielded_move_ok(
                            v,
                            self.positions@,
                            self.pos_i as int,
                            #[trigger] self.yielded@[j],
                        ) by {
                            if j < ys.len() {
                                assert(self.yielded@[j] == ys[j]);
                            } else {
                                assert(self.yielded@[j] == consider);
                                assert(self.pos == self.positions@[self.pos_i - 1]);
                                assert(0 <= self.pos_i - 1 < self.pos_i);
                            }
                        }
                        // owed-chain coverage of fully explored pieces
                        assert forall|k: int, c: Seq<Arrow>|
                            0 <= k < self.positions@.len() && k < self.done_upto()
                                && #[trigger] survives_guard(
                                v,
                                self.positions@[k],
                                c,
                            ) implies yields_chain(self.yielded@, self.positions@[k], c) by {
                            if k < pre.done_upto() {
                                assert(yields_chain(ys, self.positions@[k], c));
                                let t = choose|t: int|
                                    0 <= t < ys.len() && is_chain_move(
                                        ys[t],
                                        self.positions@[k],
                                        c,
                                    );
                                assert(is_chain_move(self.yielded@[t], self.positions@[k], c));
                            } else {
                                // the current piece, fully explored only
                                // when nothing is pending any more
                                assert(stk.len() == 0);
                                assert(k == self.pos_i - 1);
                                assert(self.positions@[k] == self.pos);
                                if yields_chain(ys, self.pos, c) {
                                    let t = choose|t: int|
                                        0 <= t < ys.len() && is_chain_move(ys[t], self.pos, c);
                                    assert(is_chain_move(self.yielded@[t], self.pos, c));
                                } else {
                                    let i = choose|i: int|
                                        0 <= i < st.len() && (#[trigger] st[i])@.is_prefix_of(c);
                                    assert(i == st.len() - 1);
                                    assert(ch =~= c.take(ch.len() as int));
                                    if c.len() == ch.len() {
                                        assert(c =~= ch);
                                        assert(is_chain_move(consider, self.pos, c));
                                        assert(self.yielded@[self.yielded@.len() - 1]
                                            == consider);
                                    } else {
                                        // no extensions were pushed, so the
                                        // popped chain already has the
                                        // greatest allowed length
                                        assert(ch.len() == MAX_CHAIN_LEN);
                                        assert(c.len() > MAX_CHAIN_LEN);
                                        assert(false);
                                    }
                                }
                            }
                        }
                        // owed chains of the current piece stay reachable
                        // or settled
                        if stk.len() > 0 {
                            assert forall|c: Seq<Arrow>| #[trigger]
                                survives_guard(v, self.pos, c) implies yields_chain(
                                self.yielded@,
                                self.pos,
                                c,
                            ) || exists|i: int|
                                0 <= i < stk.len() && (#[trigger] stk[i])@.is_prefix_of(c) by {
                                if yields_chain(ys, self.pos, c) {
                                    let t = choose|t: int|
                                        0 <= t < ys.len() && is_chain_move(ys[t], self.pos, c);
                                    assert(is_chain_move(self.yielded@[t], self.pos, c));
                                } else {
                                    let i = choose|i: int|
                                        0 <= i < st.len() && (#[trigger] st[i])@.is_prefix_of(c);
                                    if i < st.len() - 1 {
                                        assert(stk[i] == st[i]);
                                        assert((stk[i])@.is_prefix_of(c));
                                    } else {
                                        assert(ch =~= c.take(ch.len() as int));
                                        if c.len() == ch.len() {
                                            assert(c =~= ch);
                                            assert(is_chain_move(consider, self.pos, c));
                                            assert(self.yielded@[self.yielded@.len() - 1]
                                                == consider);
                                        } else {
                                            assert(c.len() > ch.len());
                                            assert(ch.len() < MAX_CHAIN_LEN);
                                            lemma_chain_move_arrows(
                                                v,
                                                self.pos,
                                                c.take(ch.len() as int + 1),
                                            );
                                            let b = c[ch.len() as int].0;
                                            assert(c.take(ch.len() as int + 1)[ch.len() as int]
                                                == c[ch.len() as int]);
                                            assert(arrow_ok(c[ch.len() as int]));
                                            assert(c[ch.len() as int] == Arrow(b));
                                            assert((stk[bl + b])@ == ch.push(Arrow(b)));
                                            assert(c.take(ch.len() as int + 1) =~= ch.push(Arrow(b)));
                                            lemma_take_prefix(c, ch.len() as int + 1);
                                            assert((stk[bl + b])@.is_prefix_of(c));
                                        }
                                    }
                                }
                            }
                        }
                        assert(self.wf());
                    }
                    return Some(consider);
                } else {
                    proof {
                        let v = self.board.bview();
                        let stk = self.check_stack@;
                        assert(stk == st.drop_last());
                        assert forall|t: int| 0 <= t < stk.len() implies stk[t] == st[t] by {
                            assert(stk[t] == st.drop_last()[t]);
                        }
                        assert forall|i: int, j: int|
                            0 <= i < stk.len() && 0 <= j < stk.len() && i != j implies !(
                        #[trigger] stk[i])@.is_prefix_of((#[trigger] stk[j])@) by {
                            assert(st[i] == stk[i] && st[j] == stk[j]);
                        }
                        assert forall|i: int, j: int|
                            0 <= i < stk.len() && 0 <= j
                                < self.yielded@.len() implies !pending_overlaps(
                            (#[trigger] stk[i])@,
                            self.pos,
                            #[trigger] self.yielded@[j],
                        ) by {
                            assert(st[i] == stk[i]);
                            assert(!pending_overlaps((st[i])@, pre.pos, pre.yielded@[j]));
                        }
                        assert forall|i: int, k: int|
                            0 <= i < stk.len() && 1 <= k < (stk[i])@.len() implies chain_move_ok(
                            v,
                            self.pos,
                            #[trigger] (stk[i])@.take(k),
                        ) && (k > REPLAY_THRESHOLD ==> !chain_repeats_on(
                            v,
                            self.pos,
                            (stk[i])@.take(k),
                        )) by {
                            assert(stk[i] == st[i]);
                            assert((st[i])@.take(k) == (stk[i])@.take(k));
                        }
                        // a discarded chain settles nothing that was owed:
                        // an illegal chain fails its own prefix check, and
                        // a chain cut by the guard fails the no-repeat
                        // check at its own length
                        assert forall|k: int, c: Seq<Arrow>|
                            0 <= k < self.positions@.len() && k < self.done_upto()
                                && #[trigger] survives_guard(
                                v,
                                self.positions@[k],
                                c,
                            ) implies yields_chain(self.yielded@, self.positions@[k], c) by {
                            if k < pre.done_upto() {
                            } else {
                                assert(stk.len() == 0);
                                assert(k == self.pos_i - 1);
                                assert(self.positions@[k] == self.pos);
                                if !yields_chain(pre.yielded@, self.pos, c) {
                                    let i = choose|i: int|
                                        0 <= i < st.len() && (#[trigger] st[i])@.is_prefix_of(c);
                                    assert(i == st.len() - 1);
                                    assert(ch =~= c.take(ch.len() as int));
                                    if valid {
                                        assert(ch.len() > REPLAY_THRESHOLD);
                                        assert(chain_repeats_on(v, pre.pos, ch));
                                        assert(!chain_repeats_on(v, pre.pos, c.take(
                                            ch.len() as int,
                                        )));
                                        assert(false);
                                    } else {
                                        assert(!chain_move_ok(v, pre.pos, ch));
                                        assert(chain_move_ok(v, pre.pos, c.take(
                                            ch.len() as int,
                                        )));
                                        assert(false);
                                    }
                                }
                            }
                        }
                        if stk.len() > 0 {
                            assert forall|c: Seq<Arrow>| #[trigger]
                                survives_guard(v, self.pos, c) implies yields_chain(
                                self.yielded@,
                                self.pos,
                                c,
                            ) || exists|i: int|
                                0 <= i < stk.len() && (#[trigger] stk[i])@.is_prefix_of(c) by {
                                if !yields_chain(self.yielded@, self.pos, c) {
                                    let i = choose|i: int|
                                        0 <= i < st.len() && (#[trigger] st[i])@.is_prefix_of(c);
                                    if i < st.len() - 1 {
                                        assert(stk[i] == st[i]);
                                        assert((stk[i])@.is_prefix_of(c));
                                    } else {
                                        assert(ch =~= c.take(ch.len() as int));
                                        if valid {
                                            assert(ch.len() > REPLAY_THRESHOLD);
                                            assert(chain_repeats_on(v, pre.pos, ch));
                                            assert(!chain_repeats_on(v, pre.pos, c.take(
                                                ch.len() as int,
                                            )));
                                            assert(false);
                                        } else {
                                            assert(!chain_move_ok(v, pre.pos, ch));
                                            assert(chain_move_ok(v, pre.pos, c.take(
                                                ch.len() as int,
                                            )));
                                            assert(false);
                                        }
                                    }
                                }
                            }
                        }
                        assert(self.wf());
                    }
                }
            }
        }
    }
}

/// Number of arrows in a movement request.
fn chain_len_of(m: &OctiMove) -> (r: usize)
    ensures
        m matches OctiMove::Move(_, c) ==> r == c@.len(),
        m matches OctiMove::Arrow(_, _) ==> r == 1,
{
    match m {
        OctiMove::Move(_, c) => c.len(),
        OctiMove::Arrow(_, _) => 1,
    }
}

/// Yields every legal move for the side to move: all arrow placements, then
/// all movement candidates.
pub struct OctiMoveIterator {
    pub arr_octi_move_iterator: ArrowOctiMoveIterator,
    pub move_octi_move_iterator: MoveOctiMoveIterator,
}

impl OctiMoveIterator {
    /// The state this iterator enumerates moves of.
    pub open spec fn src_view(&self) -> crate::board::model::BoardView {
        self.arr_octi_move_iterator.src_view()
    }

    /// Everything yielded so far: the arrow placements, then the
    /// movements.
    pub open spec fn yielded_all(&self) -> Seq<OctiMove> {
        self.arr_octi_move_iterator.yielded@ + self.move_octi_move_iterator.yielded@
    }

    pub open spec fn wf(&self) -> bool {
        &&& self.arr_octi_move_iterator.wf()
        &&& self.move_octi_move_iterator.wf()
        &&& self.arr_octi_move_iterator.src_view() == self.move_octi_move_iterator.src_view()
        // movements come only after the placements are exhausted
        &&& self.move_octi_move_iterator.yielded@.len() > 0
            ==> self.arr_octi_move_iterator.pos_i
            >= self.arr_octi_move_iterator.positions@.len()
    }

    /// An upper bound on how many more candidates this iterator can touch;
    /// every yield strictly decreases it.
    pub open spec fn measure(&self) -> int {
        self.arr_octi_move_iterator.measure() + self.move_octi_move_iterator.measure()
    }

    /// The next legal move, if any is left: one not yielded before, the
    /// placements first; `None` only once every legal placement and every
    /// legal one-hop movement has been yielded.
    pub fn next(&mut self) -> (r: Option<OctiMove>)
        requires
            old(self).wf(),
        ensures
            final(self).wf(),
            final(self).src_view() == old(self).src_view(),
            final(self).measure() >= 0,
            final(self).measure() <= old(self).measure(),
            r matches Some(m) ==> move_ok(old(self).src_view(), m) && final(self).measure() < old(
                self,
            ).measure(),
            r matches Some(m) ==> (m matches OctiMove::Move(q, c) ==> survives_guard(
                old(self).src_view(),
                q,
                c@,
            )),
            r matches Some(m) ==> final(self).yielded_all() == old(self).yielded_all().push(m)
                && !old(self).yielded_all().contains(m),
            r is None ==> final(self).yielded_all() == old(self).yielded_all() && (forall|
                p: Position,
                ar: Arrow,
            | #[trigger]
                arrow_move_ok(old(self).src_view(), p, ar) ==> final(self).yielded_all().contains(
                    OctiMove::Arrow(p, ar),
                )) && (forall|p: Position, c: Seq<Arrow>| #[trigger]
                survives_guard(old(self).src_view(), p, c) ==> yields_chain(
                    final(self).yielded_all(),
                    p,
                    c,
                )) && (forall|p: Position, a: int|
                0 <= a < 8 && #[trigger] single_move_ok(old(self).src_view(), p, a)
                    ==> yields_single(final(self).yielded_all(), p, a)),
    {
        proof {
            lemma_stack_measure_nonneg(self.move_octi_move_iterator.check_stack@);
            lemma_pos_term(
                self.move_octi_move_iterator.positions@.len() as int,
                self.move_octi_move_iterator.pos_i as int,
            );
        }
        let ghost pre = *self;
        match self.arr_octi_move_iterator.next() {
            Some(m) => {
                proof {
                    // no movement has been yielded yet, so the histories
                    // concatenate as a plain push
                    assert(pre.move_octi_move_iterator.yielded@.len() == 0);
                    assert(self.yielded_all() =~= pre.yielded_all().push(m));
                    assert(!pre.yielded_all().contains(m)) by {
                        if pre.yielded_all().contains(m) {
                            let i = choose|i: int|
                                0 <= i < pre.yielded_all().len() && pre.yielded_all()[i] == m;
                            assert(pre.arr_octi_move_iterator.yielded@[i] == m);
                            assert(pre.arr_octi_move_iterator.yielded@.contains(m));
                        }
                    }
                }
                Some(m)
            },
            None => {
                let r2 = self.move_octi_move_iterator.next();
                proof {
                    let av = self.arr_octi_move_iterator.yielded@;
                    match &r2 {
                        Some(m) => {
                            let m = *m;
                            assert(self.yielded_all() =~= pre.yielded_all().push(m));
                            assert(!pre.yielded_all().contains(m)) by {
                                if pre.yielded_all().contains(m) {
                                    let i = choose|i: int|
                                        0 <= i < pre.yielded_all().len() && pre.yielded_all()[i]
                                            == m;
                                    if i < av.len() {
                                        let (k, a) = choose|k: int, a: int|
                                            0 <= k
                                                < pre.arr_octi_move_iterator.positions@.len()
                                                && 0 <= a < 8
                                                && pre.arr_octi_move_iterator.covered(k, a)
                                                && av[i] == arrow_move_at(
                                                pre.arr_octi_move_iterator.positions@[k],
                                                a,
                                            );
                                    } else {
                                        assert(pre.move_octi_move_iterator.yielded@.contains(m));
                                    }
                                }
                            }
                        },
                        None => {
                            assert(self.yielded_all() =~= pre.yielded_all());
                            assert forall|p: Position, ar: Arrow| #[trigger]
                                arrow_move_ok(
                                    pre.src_view(),
                                    p,
                                    ar,
                                ) implies self.yielded_all().contains(OctiMove::Arrow(p, ar)) by {
                                assert(av.contains(OctiMove::Arrow(p, ar)));
                                let i = choose|i: int|
                                    0 <= i < av.len() && av[i] == OctiMove::Arrow(p, ar);
                                assert(self.yielded_all()[i] == OctiMove::Arrow(p, ar));
                            }
                            assert forall|p: Position, a: int|
                                0 <= a < 8 && #[trigger] single_move_ok(
                                    pre.src_view(),
                                    p,
                                    a,
                                ) implies yields_single(self.yielded_all(), p, a) by {
                                assert(yields_single(
                                    self.move_octi_move_iterator.yielded@,
                                    p,
                                    a,
                                ));
                                let i = choose|i: int|
                                    0 <= i < self.move_octi_move_iterator.yielded@.len()
                                        && is_single_move(
                                        self.move_octi_move_iterator.yielded@[i],
                                        p,
                                        a,
                                    );
                                assert(self.yielded_all()[av.len() + i]
                                    == self.move_octi_move_iterator.yielded@[i]);
                            }
                            assert forall|p: Position, c: Seq<Arrow>| #[trigger]
                                survives_guard(pre.src_view(), p, c) implies yields_chain(
                                self.yielded_all(),
                                p,
                                c,
                            ) by {
                                assert(yields_chain(
                                    self.move_octi_move_iterator.yielded@,
                                    p,
                                    c,
                                ));
                                let i = choose|i: int|
                                    0 <= i < self.move_octi_move_iterator.yielded@.len()
                                        && is_chain_move(
                                        self.move_octi_move_iterator.yielded@[i],
                                        p,
                                        c,
                                    );
                                assert(self.yielded_all()[av.len() + i]
                                    == self.move_octi_move_iterator.yielded@[i]);
                            }
                        },
                    }
                }
                r2
            },
        }
    }
}

/// A fresh enumerator of every legal move on the board.
pub fn new_octi_move_iterator(board: &Board) -> (r: OctiMoveIterator)
    requires
        board.wf(),
    ensures
        r.wf(),
        r.src_view() == board.bview(),
        r.yielded_all() == Seq::<OctiMove>::empty(),
{
    let r = OctiMoveIterator {
        arr_octi_move_iterator: new_arrow_octi_move_iterator(board),
        move_octi_move_iterator: new_move_octi_move_iterator(board),
    };
    proof {
        assert(r.yielded_all() =~= Seq::<OctiMove>::empty());
    }
    r
}

/// A fresh enumerator of every legal arrow placement on the board.
pub fn new_arrow_octi_move_iterator(board: &Board) -> (r: ArrowOctiMoveIterator)
    requires
        board.wf(),
    ensures
        r.wf(),
        r.src_view() == board.bview(),
        r.yielded@ == Seq::<OctiMove>::empty(),
{
    let positions = own_positions(board);
    ArrowOctiMoveIterator {
        board: board.clone(),
        pos: Position(0, 0),
        positions,
        pos_i: 0,
        arr_i: 0,
        yielded: Ghost(Seq::empty()),
    }
}

/// A fresh enumerator of every movement candidate on the board.
pub fn new_move_octi_move_iterator(board: &Board) -> (r: MoveOctiMoveIterator)
    requires
        board.wf(),
    ensures
        r.wf(),
        r.src_view() == board.bview(),
        r.yielded@ == Seq::<OctiMove>::empty(),
{
    let positions = own_positions(board);
    MoveOctiMoveIterator {
        board: board.clone(),
        pos: Position(0, 0),
        positions,
        pos_i: 0,
        check_stack: Vec::new(),
        yielded: Ghost(Seq::empty()),
    }
}

} // verus!
