//! The textual request syntax of the game wrapper: cursor commands, moves
//! in the move syntax, and engine requests.

use vstd::prelude::*;

use crate::board::parse::{
    int_run_at, int_text, lemma_int_run_unique, lemma_int_text_facts, move_text, move_textable,
    parse_i32_at,
};
use crate::board::OctiMove;
use crate::game::Action;

verus! {

/// The canonical text of a request.
pub open spec fn action_text(a: Action) -> Seq<char> {
    match a {
        Action::Start => seq!['s', 't', 'a', 'r', 't'],
        Action::End => seq!['e', 'n', 'd'],
        Action::Forward(n) => seq!['f', 'o', 'r', 'w', 'a', 'r', 'd', ' '] + int_text(n as int),
        Action::Backward(n) => seq!['b', 'a', 'c', 'k', 'w', 'a', 'r', 'd', ' '] + int_text(
            n as int,
        ),
        Action::OctiMove(m) => seq!['m', 'o', 'v', 'e', ' '] + move_text(m),
        Action::AI(d) => seq!['a', 'i', ' '] + int_text(d as int),
        Action::Overwrite => seq!['o', 'v', 'e', 'r', 'w', 'r', 'i', 't', 'e'],
    }
}

/// Whether a request can be written in the textual syntax: moves with
/// direction digits, and counts small enough for the parser's 32-bit
/// integers.
pub open spec fn action_textable(a: Action) -> bool {
    match a {
        Action::OctiMove(m) => move_textable(m),
        Action::Forward(n) => n <= i32::MAX as usize,
        Action::Backward(n) => n <= i32::MAX as usize,
        Action::AI(d) => d <= i32::MAX as u32,
        _ => true,
    }
}

/// The first character of each canonical request text, and enough of its
/// shape to tell the seven request kinds apart.
proof fn lemma_action_text_shape(a: Action)
    ensures
        (match a {
            Action::Start => action_text(a) == seq!['s', 't', 'a', 'r', 't'],
            Action::End => action_text(a) == seq!['e', 'n', 'd'],
            Action::Overwrite => action_text(a) == seq![
                'o',
                'v',
                'e',
                'r',
                'w',
                'r',
                'i',
                't',
                'e',
            ],
            Action::Forward(_) => action_text(a)[0] == 'f' && action_text(a).len() >= 9,
            Action::Backward(_) => action_text(a)[0] == 'b' && action_text(a).len() >= 10,
            Action::AI(_) => action_text(a)[0] == 'a' && action_text(a).len() >= 4,
            Action::OctiMove(_) => action_text(a)[0] == 'm' && action_text(a).len() >= 5,
        }),
{
    match a {
        Action::Forward(n) => {
            lemma_int_text_facts(n as int);
        },
        Action::Backward(n) => {
            lemma_int_text_facts(n as int);
        },
        Action::AI(d) => {
            lemma_int_text_facts(d as int);
        },
        _ => (),
    }
}

impl Action {
    /// Parses the canonical text of a request: it succeeds exactly on the
    /// canonical text of a representable request, and returns exactly the
    /// request it spells.
    pub fn from_text(s: &str) -> (r: Result<Action, String>)
        ensures
            r matches Ok(a) ==> action_textable(a) && s@ == action_text(a),
            r is Err ==> forall|a: Action| action_textable(a) ==> s@ != action_text(a),
    {
        let len = s.unicode_len();
        if len == 5 && s.get_char(0) == 's' && s.get_char(1) == 't' && s.get_char(2) == 'a'
            && s.get_char(3) == 'r' && s.get_char(4) == 't' {
            proof {
                assert(s@ =~= action_text(Action::Start));
            }
            return Ok(Action::Start);
        }
        if len == 3 && s.get_char(0) == 'e' && s.get_char(1) == 'n' && s.get_char(2) == 'd' {
            proof {
                assert(s@ =~= action_text(Action::End));
            }
            return Ok(Action::End);
        }
        if len == 9 && s.get_char(0) == 'o' && s.get_char(1) == 'v' && s.get_char(2) == 'e'
            && s.get_char(3) == 'r' && s.get_char(4) == 'w' && s.get_char(5) == 'r' && s.get_char(
            6,
        ) == 'i' && s.get_char(7) == 't' && s.get_char(8) == 'e' {
            proof {
                assert(s@ =~= action_text(Action::Overwrite));
            }
            return Ok(Action::Overwrite);
        }
        if len >= 8 && s.get_char(0) == 'f' && s.get_char(1) == 'o' && s.get_char(2) == 'r'
            && s.get_char(3) == 'w' && s.get_char(4) == 'a' && s.get_char(5) == 'r' && s.get_char(
            6,
        ) == 'd' && s.get_char(7) == ' ' {
            let parsed = parse_i32_at(s, 8);
            let ok: Option<Action> = match parsed {
                Some((n, end)) if n >= 0 && end == len => Some(Action::Forward(n as usize)),
                _ => None,
            };
            match ok {
                Some(a) => {
                    proof {
                        assert(s@ =~= action_text(a));
                    }
                    return Ok(a);
                },
                None => {
                    proof {
                        assert forall|a2: Action| action_textable(a2) implies s@ != action_text(
                            a2,
                        ) by {
                            lemma_action_text_shape(a2);
                            if s@ == action_text(a2) {
                                match a2 {
                                    Action::Forward(n) => {
                                        lemma_int_text_facts(n as int);
                                        assert(s@.subrange(8, len as int) =~= int_text(n as int));
                                        assert(int_run_at(s@, 8, n as int, len as int));
                                        match parsed {
                                            Some((n2, end2)) => {
                                                lemma_int_run_unique(
                                                    s@,
                                                    8,
                                                    n as int,
                                                    len as int,
                                                    n2 as int,
                                                    end2 as int,
                                                );
                                            },
                                            None => (),
                                        }
                                    },
                                    _ => (),
                                }
                            }
                        }
                    }
                    return Err(String::from_str("invalid forward argument"));
                },
            }
        }
        if len >= 9 && s.get_char(0) == 'b' && s.get_char(1) == 'a' && s.get_char(2) == 'c'
            && s.get_char(3) == 'k' && s.get_char(4) == 'w' && s.get_char(5) == 'a' && s.get_char(
            6,
        ) == 'r' && s.get_char(7) == 'd' && s.get_char(8) == ' ' {
            let parsed = parse_i32_at(s, 9);
            let ok: Option<Action> = match parsed {
                Some((n, end)) if n >= 0 && end == len => Some(Action::Backward(n as usize)),
                _ => None,
            };
            match ok {
                Some(a) => {
                    proof {
                        assert(s@ =~= action_text(a));
                    }
                    return Ok(a);
                },
                None => {
                    proof {
                        assert forall|a2: Action| action_textable(a2) implies s@ != action_text(
                            a2,
                        ) by {
                            lemma_action_text_shape(a2);
                            if s@ == action_text(a2) {
                                match a2 {
                                    Action::Backward(n) => {
                                        lemma_int_text_facts(n as int);
                                        assert(s@.subrange(9, len as int) =~= int_text(n as int));
                                        assert(int_run_at(s@, 9, n as int, len as int));
                                        match parsed {
                                            Some((n2, end2)) => {
                                                lemma_int_run_unique(
                                                    s@,
                                                    9,
                                                    n as int,
                                                    len as int,
                                                    n2 as int,
                                                    end2 as int,
                                                );
                                            },
                                            None => (),
                                        }
                                    },
                                    _ => (),
                                }
                            }
                        }
                    }
                    return Err(String::from_str("invalid backward argument"));
                },
            }
        }
        if len >= 3 && s.get_char(0) == 'a' && s.get_char(1) == 'i' && s.get_char(2) == ' ' {
            let parsed = parse_i32_at(s, 3);
            let ok: Option<Action> = match parsed {
                Some((n, end)) if n >= 0 && end == len => Some(Action::AI(n as u32)),
                _ => None,
            };
            match ok {
                Some(a) => {
                    proof {
                        assert(s@ =~= action_text(a));
                    }
                    return Ok(a);
                },
                None => {
                    proof {
                        assert forall|a2: Action| action_textable(a2) implies s@ != action_text(
                            a2,
                        ) by {
                            lemma_action_text_shape(a2);
                            if s@ == action_text(a2) {
                                match a2 {
                                    Action::AI(d) => {
                                        lemma_int_text_facts(d as int);
                                        assert(s@.subrange(3, len as int) =~= int_text(d as int));
                                        assert(int_run_at(s@, 3, d as int, len as int));
                                        match parsed {
                                            Some((n2, end2)) => {
                                                lemma_int_run_unique(
                                                    s@,
                                                    3,
                                                    d as int,
                                                    len as int,
                                                    n2 as int,
                                                    end2 as int,
                                                );
                                            },
                                            None => (),
                                        }
                                    },
                                    _ => (),
                                }
                            }
                        }
                    }
                    return Err(String::from_str("invalid search depth"));
                },
            }
        }
        if len >= 5 && s.get_char(0) == 'm' && s.get_char(1) == 'o' && s.get_char(2) == 'v'
            && s.get_char(3) == 'e' && s.get_char(4) == ' ' {
            let rest = s.substring_char(5, len);
            let m = match OctiMove::from_text(rest) {
                Ok(m) => m,
                Err(e) => {
                    proof {
                        assert forall|a2: Action| action_textable(a2) implies s@ != action_text(
                            a2,
                        ) by {
                            lemma_action_text_shape(a2);
                            if s@ == action_text(a2) {
                                match a2 {
                                    Action::OctiMove(m2) => {
                                        assert(rest@ =~= move_text(m2));
                                    },
                                    _ => (),
                                }
                            }
                        }
                    }
                    return Err(e);
                },
            };
            let a = Action::OctiMove(m);
            proof {
                assert(s@ =~= action_text(a));
            }
            return Ok(a);
        }
        proof {
            assert forall|a2: Action| action_textable(a2) implies s@ != action_text(a2) by {
                lemma_action_text_shape(a2);
                if s@ == action_text(a2) {
                    match a2 {
                        Action::Start => {
                            assert(s@[0] == 's' && s@[1] == 't' && s@[2] == 'a' && s@[3] == 'r'
                                && s@[4] == 't');
                        },
                        Action::End => {
                            assert(s@[0] == 'e' && s@[1] == 'n' && s@[2] == 'd');
                        },
                        Action::Overwrite => {
                            assert(s@[0] == 'o' && s@[1] == 'v' && s@[2] == 'e' && s@[3] == 'r'
                                && s@[4] == 'w' && s@[5] == 'r' && s@[6] == 'i' && s@[7] == 't'
                                && s@[8] == 'e');
                        },
                        Action::Forward(n) => {
                            lemma_int_text_facts(n as int);
                            assert(s@[0] == 'f' && s@[1] == 'o' && s@[2] == 'r' && s@[3] == 'w'
                                && s@[4] == 'a' && s@[5] == 'r' && s@[6] == 'd' && s@[7] == ' ');
                        },
                        Action::Backward(n) => {
                            lemma_int_text_facts(n as int);
                            assert(s@[0] == 'b' && s@[1] == 'a' && s@[2] == 'c' && s@[3] == 'k'
                                && s@[4] == 'w' && s@[5] == 'a' && s@[6] == 'r' && s@[7] == 'd'
                                && s@[8] == ' ');
                        },
                        Action::AI(d) => {
                            lemma_int_text_facts(d as int);
                            assert(s@[0] == 'a' && s@[1] == 'i' && s@[2] == ' ');
                        },
                        Action::OctiMove(m2) => {
                            assert(s@[0] == 'm' && s@[1] == 'o' && s@[2] == 'v' && s@[3] == 'e'
                                && s@[4] == ' ');
                        },
                    }
                }
            }
        }
        Err(String::from_str("unrecognized request"))
    }
}

} // verus!
