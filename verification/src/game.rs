//! The game wrapper around the rules board: a move history with a cursor
//! for stepping backward and forward, and the bridge to the search engine.

pub mod parse;

use vstd::prelude::*;

use crate::ai::eval::EvalData;
use crate::ai::priority::PriorityEvalData;
use crate::ai::{minimax, winner_view, AiError};
use crate::board::model::{after_move, has_candidate_move, move_events_spec, move_ok, BoardView};
use crate::board::state::Board;
use crate::board::{Boardable, BoardEventProcessor, MoveError, OctiMove};

verus! {

pub type GameHistory = Vec<OctiMove>;

/// The state reached by replaying a list of moves in order.
pub open spec fn replay(v: BoardView, ms: Seq<OctiMove>) -> BoardView
    decreases ms.len(),
{
    if ms.len() == 0 {
        v
    } else {
        replay(after_move(v, move_events_spec(v, ms.first()).unwrap()), ms.drop_first())
    }
}

/// Whether a list of moves is legal when replayed in order.
pub open spec fn replay_ok(v: BoardView, ms: Seq<OctiMove>) -> bool
    decreases ms.len(),
{
    ms.len() == 0 || (move_ok(v, ms.first()) && replay_ok(
        after_move(v, move_events_spec(v, ms.first()).unwrap()),
        ms.drop_first(),
    ))
}

/// Splitting a replay at a concatenation.
pub proof fn lemma_replay_concat(v: BoardView, ms1: Seq<OctiMove>, ms2: Seq<OctiMove>)
    ensures
        replay(v, ms1 + ms2) == replay(replay(v, ms1), ms2),
        replay_ok(v, ms1 + ms2) == (replay_ok(v, ms1) && replay_ok(replay(v, ms1), ms2)),
    decreases ms1.len(),
{
    if ms1.len() == 0 {
        assert(ms1 + ms2 =~= ms2);
    } else {
        let v2 = after_move(v, move_events_spec(v, ms1.first()).unwrap());
        assert((ms1 + ms2).first() == ms1.first());
        assert((ms1 + ms2).drop_first() =~= ms1.drop_first() + ms2);
        lemma_replay_concat(v2, ms1.drop_first(), ms2);
    }
}

/// Appending one move to a replay.
pub proof fn lemma_replay_push(v: BoardView, ms: Seq<OctiMove>, m: OctiMove)
    ensures
        replay(v, ms.push(m)) == after_move(
            replay(v, ms),
            move_events_spec(replay(v, ms), m).unwrap(),
        ),
        replay_ok(v, ms.push(m)) == (replay_ok(v, ms) && move_ok(replay(v, ms), m)),
{
    assert(ms.push(m) =~= ms + seq![m]);
    lemma_replay_concat(v, ms, seq![m]);
    let v2 = replay(v, ms);
    assert(seq![m].first() == m);
    assert(seq![m].drop_first() =~= Seq::<OctiMove>::empty());
    assert(replay(after_move(v2, move_events_spec(v2, m).unwrap()), Seq::<OctiMove>::empty())
        == after_move(v2, move_events_spec(v2, m).unwrap()));
    assert(replay_ok(after_move(v2, move_events_spec(v2, m).unwrap()), Seq::<OctiMove>::empty()));
}

/// A request to the game wrapper.
pub enum Action {
    /// Rewind the cursor to the start of the history.
    Start,
    /// Advance the cursor to the end of the history.
    End,
    /// Advance the cursor by the given number of moves.
    Forward(usize),
    /// Rewind the cursor by the given number of moves.
    Backward(usize),
    /// Play a move at the head of the history.
    OctiMove(OctiMove),
    /// Ask the engine for a move at the given depth and play it.
    AI(u32),
    /// Drop the history beyond the cursor.
    Overwrite,
}

/// Why a game request failed.
#[derive(Clone, Copy, PartialEq, Eq, Structural, Debug)]
pub enum GameError {
    /// Moves can only be played with the cursor at the head of the history.
    CursorNotAtHead,
    /// The move was illegal on the current board.
    Move(MoveError),
    /// The engine could not produce a move.
    Ai(AiError),
}

impl GameError {
    /// A short description of the failure, for display.
    pub fn message(&self) -> String {
        match self {
            GameError::CursorNotAtHead => String::from_str(
                "cannot make a move when the cursor is not on the head",
            ),
            GameError::Move(e) => e.message(),
            GameError::Ai(e) => e.message(),
        }
    }
}

/// A game in progress: the current board, the board the game started from,
/// the moves played, and a cursor marking how many of them are applied to
/// the current board.
pub struct Game {
    pub state: Board,
    pub start: Board,
    pub history: GameHistory,
    pub cursor: usize,
}

impl Game {
    /// The wrapper's invariant: the history is legal from the starting
    /// board, and the current board is the replay of the first `cursor`
    /// moves.
    pub open spec fn wf(&self) -> bool {
        &&& self.start.wf()
        &&& self.state.wf()
        &&& self.cursor <= self.history@.len()
        &&& replay_ok(self.start.bview(), self.history@)
        &&& self.state.bview() == replay(
            self.start.bview(),
            self.history@.take(self.cursor as int),
        )
    }

    pub fn new(board: Board) -> (r: Game)
        requires
            board.wf(),
        ensures
            r.wf(),
            r.state.bview() == board.bview(),
            r.start.bview() == board.bview(),
            r.history@ == Seq::<OctiMove>::empty(),
            r.cursor == 0,
    {
        let state = board.clone();
        let r = Game { state, start: board, history: Vec::new(), cursor: 0 };
        proof {
            assert(r.history@.take(0) =~= Seq::<OctiMove>::empty());
        }
        r
    }

    pub fn state(&self) -> (r: &Board)
        ensures
            r == &self.state,
    {
        &self.state
    }

    pub fn start(&self) -> (r: &Board)
        ensures
            r == &self.start,
    {
        &self.start
    }

    pub fn history(&self) -> (r: &GameHistory)
        ensures
            r == &self.history,
    {
        &self.history
    }

    pub fn cursor(&self) -> (r: usize)
        ensures
            r == self.cursor,
    {
        self.cursor
    }

    /// Plays a move at the head of the history: rejected if the cursor is
    /// not at the head or the move is illegal (leaving the game unchanged),
    /// otherwise applied and recorded.
    pub fn make_move(&mut self, octi_move: OctiMove) -> (r: Result<(), GameError>)
        requires
            old(self).wf(),
        ensures
            final(self).wf(),
            old(self).cursor < old(self).history@.len() ==> r == Err::<(), GameError>(
                GameError::CursorNotAtHead,
            ) && *final(self) == *old(self),
            old(self).cursor == old(self).history@.len() ==> match move_events_spec(
                old(self).state.bview(),
                octi_move,
            ) {
                Ok(es) => r is Ok && final(self).history@ == old(self).history@.push(octi_move)
                    && final(self).cursor == final(self).history@.len()
                    && final(self).state.bview() == after_move(old(self).state.bview(), es)
                    && final(self).start == old(self).start,
                Err(e) => r == Err::<(), GameError>(GameError::Move(e))
                    && *final(self) == *old(self),
            },
    {
        if self.cursor < self.history.len() {
            return Err(GameError::CursorNotAtHead);
        }
        proof {
            assert(self.history@.take(self.cursor as int) =~= self.history@);
        }
        match self.state.make_move(&octi_move) {
            Err(e) => {
                return Err(GameError::Move(e));
            },
            Ok(u) => (),
        }
        proof {
            lemma_replay_push(self.start.bview(), self.history@, octi_move);
        }
        self.history.push(octi_move);
        self.cursor = self.history.len();
        proof {
            assert(self.history@.take(self.cursor as int) =~= self.history@);
        }
        Ok(())
    }

    /// Asks the engine for a move at the given depth and plays it.
    pub fn ai(&mut self, depth: u32, eval_data: &EvalData, priority_eval_data: &PriorityEvalData) -> (r: Result<(), GameError>)
        requires
            old(self).wf(),
            eval_data.wf(),
            priority_eval_data.wf(),
        ensures
            final(self).wf(),
            depth == 0 ==> r == Err::<(), GameError>(GameError::Ai(AiError::ZeroDepth)),
            r is Err ==> *final(self) == *old(self),
            depth >= 1 ==> (r == Err::<(), GameError>(GameError::Ai(AiError::NoMoves)) <==> (
            winner_view(old(self).state.bview()) is Some || !has_candidate_move(
                old(self).state.bview(),
            ))),
            depth >= 1 && old(self).cursor == old(self).history@.len() && winner_view(
                old(self).state.bview(),
            ) is None && has_candidate_move(old(self).state.bview()) ==> r is Ok,
            r is Ok ==> old(self).cursor == old(self).history@.len() && exists|m: OctiMove|
                {
                    &&& #[trigger] move_ok(old(self).state.bview(), m)
                    &&& final(self).history@ == old(self).history@.push(m)
                    &&& final(self).cursor == final(self).history@.len()
                    &&& final(self).state.bview() == after_move(
                        old(self).state.bview(),
                        move_events_spec(old(self).state.bview(), m).unwrap(),
                    )
                    &&& final(self).start == old(self).start
                },
    {
        let snapshot = crate::ai::board::Board::new(&self.state);
        let result = match minimax(&snapshot, depth, eval_data, priority_eval_data) {
            Ok(r) => r,
            Err(e) => {
                return Err(GameError::Ai(e));
            },
        };
        let octi_move = match result.octi_move() {
            Some(m) => m,
            None => {
                return Err(GameError::Ai(AiError::NoMoves));
            },
        };
        match self.make_move(octi_move) {
            Ok(u) => {
                proof {
                    assert(move_ok(old(self).state.bview(), octi_move));
                }
                Ok(())
            },
            Err(e) => Err(e),
        }
    }

    /// Carries out one request, dispatching to the function that handles
    /// its kind and answering with that function's result.
    pub fn process_action(
        &mut self,
        action: Action,
        eval_data: &EvalData,
        priority_eval_data: &PriorityEvalData,
    ) -> (r: Result<(), GameError>)
        requires
            old(self).wf(),
            eval_data.wf(),
            priority_eval_data.wf(),
        ensures
            final(self).wf(),
            action matches Action::Start ==> r is Ok && final(self).cursor == 0
                && final(self).history@ == old(self).history@
                && final(self).start == old(self).start,
            action matches Action::End ==> r is Ok
                && final(self).cursor == final(self).history@.len()
                && final(self).history@ == old(self).history@
                && final(self).start == old(self).start,
            action matches Action::Forward(n) ==> r is Ok
                && final(self).history@ == old(self).history@
                && final(self).start == old(self).start
                && final(self).cursor == (if old(self).cursor + n <= old(self).history@.len() {
                old(self).cursor + n
            } else {
                old(self).history@.len() as int
            }),
            action matches Action::Backward(n) ==> r is Ok
                && final(self).history@ == old(self).history@
                && final(self).start == old(self).start
                && final(self).cursor == (if n <= old(self).cursor {
                old(self).cursor - n
            } else {
                0int
            }),
            action matches Action::OctiMove(m) ==> (old(self).cursor < old(self).history@.len()
                ==> r == Err::<(), GameError>(GameError::CursorNotAtHead) && *final(self) == *old(
                self,
            )) && (old(self).cursor == old(self).history@.len() ==> match move_events_spec(
                old(self).state.bview(),
                m,
            ) {
                Ok(es) => r is Ok && final(self).history@ == old(self).history@.push(m)
                    && final(self).cursor == final(self).history@.len()
                    && final(self).state.bview() == after_move(old(self).state.bview(), es)
                    && final(self).start == old(self).start,
                Err(e) => r == Err::<(), GameError>(GameError::Move(e)) && *final(self) == *old(
                    self,
                ),
            }),
            action matches Action::AI(d) ==> (d == 0 ==> r == Err::<(), GameError>(
                GameError::Ai(AiError::ZeroDepth),
            )) && (d >= 1 ==> (r == Err::<(), GameError>(GameError::Ai(AiError::NoMoves)) <==> (
            winner_view(old(self).state.bview()) is Some || !has_candidate_move(
                old(self).state.bview(),
            )))) && (r is Err ==> *final(self) == *old(self)) && (r is Ok ==> old(self).cursor
                == old(self).history@.len() && exists|m: OctiMove|
                {
                    &&& #[trigger] move_ok(old(self).state.bview(), m)
                    &&& final(self).history@ == old(self).history@.push(m)
                    &&& final(self).cursor == final(self).history@.len()
                    &&& final(self).state.bview() == after_move(
                        old(self).state.bview(),
                        move_events_spec(old(self).state.bview(), m).unwrap(),
                    )
                    &&& final(self).start == old(self).start
                }),
            action matches Action::Overwrite ==> r is Ok
                && final(self).history@ == old(self).history@.take(old(self).cursor as int)
                && final(self).cursor == old(self).cursor
                && final(self).state == old(self).state && final(self).start == old(self).start,
    {
        match action {
            Action::Start => {
                self.cursor_start();
                Ok(())
            },
            Action::End => {
                self.cursor_end();
                Ok(())
            },
            Action::Forward(steps) => {
                self.move_cursor_forward(steps);
                Ok(())
            },
            Action::Backward(steps) => {
                self.move_cursor_backwords(steps);
                Ok(())
            },
            Action::OctiMove(octi_move) => self.make_move(octi_move),
            Action::AI(depth) => self.ai(depth, eval_data, priority_eval_data),
            Action::Overwrite => {
                self.overwrite_history();
                Ok(())
            },
        }
    }

    /// Drops the history beyond the cursor.
    pub fn overwrite_history(&mut self)
        requires
            old(self).wf(),
        ensures
            final(self).wf(),
            final(self).history@ == old(self).history@.take(old(self).cursor as int),
            final(self).cursor == old(self).cursor,
            final(self).state == old(self).state,
            final(self).start == old(self).start,
    {
        proof {
            let h = self.history@;
            let c = self.cursor as int;
            assert(h =~= h.take(c) + h.skip(c));
            lemma_replay_concat(self.start.bview(), h.take(c), h.skip(c));
        }
        self.history.truncate(self.cursor);
        proof {
            assert(self.history@.take(self.cursor as int) =~= self.history@);
        }
    }

    /// Advances the cursor by up to `by` moves, replaying each one on the
    /// current board.
    pub fn move_cursor_forward(&mut self, by: usize)
        requires
            old(self).wf(),
        ensures
            final(self).wf(),
            final(self).history@ == old(self).history@,
            final(self).start == old(self).start,
            final(self).cursor == (if old(self).cursor + by <= old(self).history@.len() {
                old(self).cursor + by
            } else {
                old(self).history@.len() as int
            }),
    {
        let len = self.history.len();
        let new_cursor: usize = if by > len - self.cursor {
            len
        } else {
            self.cursor + by
        };
        let mut i = self.cursor;
        while i < new_cursor
            invariant
                new_cursor <= self.history@.len(),
                i <= new_cursor,
                self.start.wf(),
                self.state.wf(),
                self.history@ == old(self).history@,
                self.start == old(self).start,
                replay_ok(self.start.bview(), self.history@),
                self.state.bview() == replay(self.start.bview(), self.history@.take(i as int)),
            decreases new_cursor - i,
        {
            proof {
                let sv = self.start.bview();
                let h = self.history@;
                assert(h =~= h.take(i as int) + h.skip(i as int));
                lemma_replay_concat(sv, h.take(i as int), h.skip(i as int));
                assert(h.skip(i as int).first() == h[i as int]);
                assert(move_ok(self.state.bview(), h[i as int]));
            }
            let res = self.state.make_move(&self.history[i]);
            proof {
                assert(res is Ok);
                assert(self.history@.take(i as int + 1) =~= self.history@.take(i as int).push(
                    self.history@[i as int],
                ));
                lemma_replay_push(
                    self.start.bview(),
                    self.history@.take(i as int),
                    self.history@[i as int],
                );
            }
            i = i + 1;
        }
        self.cursor = new_cursor;
    }

    /// Rewinds the cursor by up to `by` moves, rebuilding the current board
    /// from the start of the game.
    pub fn move_cursor_backwords(&mut self, by: usize)
        requires
            old(self).wf(),
        ensures
            final(self).wf(),
            final(self).history@ == old(self).history@,
            final(self).start == old(self).start,
            final(self).cursor == (if by <= old(self).cursor {
                old(self).cursor - by
            } else {
                0int
            }),
    {
        let new_cursor: usize = if by > self.cursor {
            0
        } else {
            self.cursor - by
        };
        self.state = self.start.clone();
        proof {
            assert(self.history@.take(0) =~= Seq::<OctiMove>::empty());
        }
        let mut i: usize = 0;
        while i < new_cursor
            invariant
                new_cursor <= self.history@.len(),
                i <= new_cursor,
                self.start.wf(),
                self.state.wf(),
                self.history@ == old(self).history@,
                self.start == old(self).start,
                replay_ok(self.start.bview(), self.history@),
                self.state.bview() == replay(self.start.bview(), self.history@.take(i as int)),
            decreases new_cursor - i,
        {
            proof {
                let sv = self.start.bview();
                let h = self.history@;
                assert(h =~= h.take(i as int) + h.skip(i as int));
                lemma_replay_concat(sv, h.take(i as int), h.skip(i as int));
                assert(h.skip(i as int).first() == h[i as int]);
                assert(move_ok(self.state.bview(), h[i as int]));
            }
            let res = self.state.make_move(&self.history[i]);
            proof {
                assert(res is Ok);
                assert(self.history@.take(i as int + 1) =~= self.history@.take(i as int).push(
                    self.history@[i as int],
                ));
                lemma_replay_push(
                    self.start.bview(),
                    self.history@.take(i as int),
                    self.history@[i as int],
                );
            }
            i = i + 1;
        }
        self.cursor = new_cursor;
    }

    /// Advances the cursor to the end of the history.
    pub fn cursor_end(&mut self)
        requires
            old(self).wf(),
        ensures
            final(self).wf(),
            final(self).cursor == final(self).history@.len(),
            final(self).history@ == old(self).history@,
            final(self).start == old(self).start,
    {
        let len = self.history.len();
        self.move_cursor_forward(len);
    }

    /// Rewinds the cursor to the start of the history.
    pub fn cursor_start(&mut self)
        requires
            old(self).wf(),
        ensures
            final(self).wf(),
            final(self).cursor == 0,
            final(self).history@ == old(self).history@,
            final(self).start == old(self).start,
    {
        let len = self.history.len();
        self.move_cursor_backwords(len);
    }

    /// Puts the cursor on the given move index (or the end of the history,
    /// if it is shorter).
    pub fn set_cursor(&mut self, to: usize)
        requires
            old(self).wf(),
        ensures
            final(self).wf(),
            final(self).history@ == old(self).history@,
            final(self).cursor == (if to <= old(self).history@.len() {
                to as int
            } else {
                old(self).history@.len() as int
            }),
    {
        self.cursor_start();
        self.move_cursor_forward(to);
    }
}

impl Default for Game {
    /// A fresh game from the standard starting position.
    fn default() -> (r: Game)
        ensures
            r.wf(),
            r.history@ == Seq::<OctiMove>::empty(),
            r.cursor == 0,
            r.state.bview() == crate::board::state::initial_view(),
    {
        Game::new(Board::default())
    }
}

} // verus!
