//! The textual move syntax: `arr (x,y) d` places arrow `d` on the piece at
//! `(x,y)`, and `mov (x,y) d1 d2 ...` moves that piece along one or more
//! direction digits. Formatting produces exactly this canonical text, and
//! parsing accepts exactly it and returns exactly the formatted move.

use vstd::prelude::*;

use crate::board::{arrow_ok, Arrow, OctiMove, Position};

verus! {

/// The decimal digit character of a value below ten.
pub open spec fn digit_char(d: int) -> char {
    if d == 0 {
        '0'
    } else if d == 1 {
        '1'
    } else if d == 2 {
        '2'
    } else if d == 3 {
        '3'
    } else if d == 4 {
        '4'
    } else if d == 5 {
        '5'
    } else if d == 6 {
        '6'
    } else if d == 7 {
        '7'
    } else if d == 8 {
        '8'
    } else {
        '9'
    }
}

/// Whether a character is a decimal digit.
pub open spec fn is_digit(c: char) -> bool {
    '0' <= c && c <= '9'
}

/// The numeric value of a digit character.
pub open spec fn digit_val(c: char) -> int {
    c as int - '0' as int
}

/// The decimal digits of a positive number, most significant first.
pub open spec fn digits_text(n: int) -> Seq<char>
    decreases n,
{
    if n <= 0 {
        Seq::empty()
    } else {
        digits_text(n / 10).push(digit_char(n % 10))
    }
}

/// The canonical decimal text of an integer.
pub open spec fn int_text(n: int) -> Seq<char> {
    if n == 0 {
        seq!['0']
    } else if n > 0 {
        digits_text(n)
    } else {
        seq!['-'] + digits_text(-n)
    }
}

/// The canonical text of a position: `(x,y)`.
pub open spec fn pos_text(p: Position) -> Seq<char> {
    seq!['('] + int_text(p.0 as int) + seq![','] + int_text(p.1 as int) + seq![')']
}

/// The canonical text of an arrow: its direction digit.
pub open spec fn arrow_text(a: Arrow) -> Seq<char> {
    seq![digit_char(a.0 as int)]
}

/// The canonical text of an arrow chain: one direction digit per hop, each
/// preceded by a space.
pub open spec fn chain_text(arrs: Seq<Arrow>) -> Seq<char>
    decreases arrs.len(),
{
    if arrs.len() == 0 {
        Seq::empty()
    } else {
        chain_text(arrs.drop_last()) + seq![' '] + arrow_text(arrs.last())
    }
}

/// The canonical text of a move request.
pub open spec fn move_text(m: OctiMove) -> Seq<char> {
    match m {
        OctiMove::Arrow(p, a) => seq!['a', 'r', 'r', ' '] + pos_text(p) + seq![' '] + arrow_text(
            a,
        ),
        OctiMove::Move(p, arrs) => seq!['m', 'o', 'v', ' '] + pos_text(p) + chain_text(arrs@),
    }
}

/// Whether a move can be written in the textual syntax: every arrow denotes
/// a direction, and a movement names at least one hop.
pub open spec fn move_textable(m: OctiMove) -> bool {
    match m {
        OctiMove::Arrow(_, a) => arrow_ok(a),
        OctiMove::Move(_, arrs) => arrs@.len() >= 1 && forall|i: int|
            0 <= i < arrs@.len() ==> arrow_ok(#[trigger] arrs@[i]),
    }
}

/// The digit text of a single digit.
fn digit_str(d: u32) -> (r: &'static str)
    requires
        d < 10,
    ensures
        r@ == seq![digit_char(d as int)],
{
    proof {
        reveal_strlit("0");
        reveal_strlit("1");
        reveal_strlit("2");
        reveal_strlit("3");
        reveal_strlit("4");
        reveal_strlit("5");
        reveal_strlit("6");
        reveal_strlit("7");
        reveal_strlit("8");
        reveal_strlit("9");
    }
    match d {
        0 => "0",
        1 => "1",
        2 => "2",
        3 => "3",
        4 => "4",
        5 => "5",
        6 => "6",
        7 => "7",
        8 => "8",
        _ => "9",
    }
}

/// The canonical decimal text of a 32-bit integer.
pub fn format_i32(n: i32) -> (r: String)
    ensures
        r@ == int_text(n as int),
{
    if n == 0 {
        proof {
            reveal_strlit("0");
        }
        return String::from_str("0");
    }
    let neg = n < 0;
    let wide: i64 = n as i64;
    let mut mag: u64 = if neg {
        (-wide) as u64
    } else {
        wide as u64
    };
    let ghost mag0 = mag as int;
    let mut digits: Vec<u32> = Vec::new();
    let ghost mut rev: Seq<char> = Seq::empty();
    while mag > 0
        invariant
            digits_text(mag0) == digits_text(mag as int) + rev,
            digits@.len() == rev.len(),
            forall|i: int|
                0 <= i < digits@.len() ==> #[trigger] digits@[i] < 10 && rev[rev.len() - 1 - i]
                    == digit_char(digits@[i] as int),
        decreases mag,
    {
        let d: u32 = (mag % 10) as u32;
        proof {
            assert(digits_text(mag as int) == digits_text(mag as int / 10).push(
                digit_char(mag as int % 10),
            ));
            assert(digits_text(mag as int / 10) + (seq![
                digit_char(mag as int % 10),
            ] + rev) =~= (digits_text(mag as int / 10).push(digit_char(mag as int % 10))) + rev);
            rev = seq![digit_char(mag as int % 10)] + rev;
        }
        digits.push(d);
        mag = mag / 10;
    }
    proof {
        assert(digits_text(mag0) =~= rev);
    }
    let mut out = String::new();
    if neg {
        proof {
            reveal_strlit("-");
        }
        out.append("-");
    }
    let ghost sign: Seq<char> = if neg {
        seq!['-']
    } else {
        Seq::empty()
    };
    proof {
        assert(out@ =~= sign);
    }
    let mut k: usize = digits.len();
    while k > 0
        invariant
            digits@.len() == rev.len(),
            forall|i: int|
                0 <= i < digits@.len() ==> #[trigger] digits@[i] < 10 && rev[rev.len() - 1 - i]
                    == digit_char(digits@[i] as int),
            k <= digits@.len(),
            out@ == sign + rev.take(rev.len() - k),
        decreases k,
    {
        k = k - 1;
        out.append(digit_str(digits[k]));
        proof {
            assert(out@ =~= sign + rev.take(rev.len() - k));
        }
    }
    proof {
        assert(rev.take(rev.len() as int) =~= rev);
        assert(out@ =~= int_text(n as int));
    }
    out
}

impl Position {
    /// The canonical text of this position.
    pub fn to_text(&self) -> (r: String)
        ensures
            r@ == pos_text(*self),
    {
        proof {
            reveal_strlit("(");
            reveal_strlit(",");
            reveal_strlit(")");
        }
        let mut out = String::from_str("(");
        out.append(format_i32(self.0).as_str());
        out.append(",");
        out.append(format_i32(self.1).as_str());
        out.append(")");
        proof {
            assert(out@ =~= pos_text(*self));
        }
        out
    }
}

impl Arrow {
    /// The canonical text of this arrow: its direction digit.
    pub fn to_text(&self) -> (r: String)
        requires
            arrow_ok(*self),
        ensures
            r@ == arrow_text(*self),
    {
        String::from_str(digit_str(self.0 as u32))
    }
}

impl OctiMove {
    /// The canonical text of this move request.
    pub fn to_text(&self) -> (r: String)
        requires
            move_textable(*self),
        ensures
            r@ == move_text(*self),
    {
        match self {
            OctiMove::Arrow(pos, arr) => {
                proof {
                    reveal_strlit("arr ");
                    reveal_strlit(" ");
                }
                let mut out = String::from_str("arr ");
                out.append(pos.to_text().as_str());
                out.append(" ");
                out.append(arr.to_text().as_str());
                proof {
                    assert(out@ =~= move_text(*self));
                }
                out
            },
            OctiMove::Move(pos, arrs) => {
                proof {
                    reveal_strlit("mov ");
                    reveal_strlit(" ");
                }
                let mut out = String::from_str("mov ");
                out.append(pos.to_text().as_str());
                let ghost base = out@;
                let mut k: usize = 0;
                while k < arrs.len()
                    invariant
                        move_textable(*self),
                        self == OctiMove::Move(*pos, *arrs),
                        k <= arrs@.len(),
                        out@ == base + chain_text(arrs@.take(k as int)),
                        " "@ == seq![' '],
                    decreases arrs@.len() - k,
                {
                    out.append(" ");
                    out.append(digit_str(arrs[k].0 as u32));
                    proof {
                        assert(arrs@.take(k as int + 1).drop_last() =~= arrs@.take(k as int));
                        assert(arrs@.take(k as int + 1).last() == arrs@[k as int]);
                        assert(out@ =~= base + chain_text(arrs@.take(k as int + 1)));
                    }
                    k = k + 1;
                }
                proof {
                    assert(arrs@.take(arrs@.len() as int) =~= arrs@);
                    assert(out@ =~= move_text(*self));
                }
                out
            },
        }
    }
}


/// The digit value of a character, if it is a decimal digit.
fn char_digit(c: char) -> (r: Option<u32>)
    ensures
        r matches Some(d) ==> d < 10 && digit_char(d as int) == c && is_digit(c) && digit_val(c)
            == d,
        r is None ==> !is_digit(c),
{
    match c {
        '0' => Some(0),
        '1' => Some(1),
        '2' => Some(2),
        '3' => Some(3),
        '4' => Some(4),
        '5' => Some(5),
        '6' => Some(6),
        '7' => Some(7),
        '8' => Some(8),
        '9' => Some(9),
        _ => None,
    }
}

/// Whether a canonical 32-bit integer stands at `start`, ending at the end
/// of the text or right before a non-digit.
pub open spec fn int_run_at(s: Seq<char>, start: int, n: int, end: int) -> bool {
    &&& start < end <= s.len()
    &&& i32::MIN <= n <= i32::MAX
    &&& s.subrange(start, end) == int_text(n)
    &&& (end == s.len() || !is_digit(s[end]))
}

/// Parses a canonical decimal integer starting at `start`: it succeeds
/// exactly when a canonical 32-bit integer stands there, and the consumed
/// text is exactly the canonical text of the value returned.
pub(crate) fn parse_i32_at(s: &str, start: usize) -> (r: Option<(i32, usize)>)
    requires
        start <= s@.len(),
    ensures
        r matches Some(t) ==> int_run_at(s@, start as int, t.0 as int, t.1 as int),
        r is None ==> forall|n: int, end: int| !int_run_at(s@, start as int, n, end),
{
    let len = s.unicode_len();
    if start >= len {
        proof {
            assert forall|n: int, end: int| !int_run_at(s@, start as int, n, end) by {
                if int_run_at(s@, start as int, n, end) {
                    lemma_int_text_facts(n);
                }
            }
        }
        return None;
    }
    let mut i = start;
    let neg = s.get_char(i) == '-';
    if neg {
        i = i + 1;
        if i >= len {
            proof {
                assert forall|n: int, end: int| !int_run_at(s@, start as int, n, end) by {
                    if int_run_at(s@, start as int, n, end) {
                        lemma_int_text_facts(n);
                        assert(s@[start as int] == int_text(n)[0]);
                        assert(n < 0);
                        assert(end - start >= 2);
                    }
                }
            }
            return None;
        }
    }
    let c0 = s.get_char(i);
    if c0 == '0' {
        if neg {
            proof {
                assert forall|n: int, end: int| !int_run_at(s@, start as int, n, end) by {
                    if int_run_at(s@, start as int, n, end) {
                        lemma_int_text_facts(n);
                        assert(s@[start as int] == int_text(n)[0]);
                        assert(n < 0);
                        lemma_digits_text_facts(-n);
                        assert(s@[start + 1] == int_text(n)[1]);
                        assert(int_text(n)[1] == digits_text(-n)[0]);
                    }
                }
            }
            return None;
        }
        if i + 1 < len {
            let c1 = s.get_char(i + 1);
            if char_digit(c1).is_some() {
                // a canonical number has no leading zero
                proof {
                    assert forall|n: int, end: int| !int_run_at(s@, start as int, n, end) by {
                        if int_run_at(s@, start as int, n, end) {
                            lemma_int_text_facts(n);
                            assert(s@[start as int] == int_text(n)[0]);
                            assert(n == 0);
                            assert(end == start + 1);
                            assert(is_digit(s@[end]));
                        }
                    }
                }
                return None;
            }
        }
        proof {
            assert(s@.subrange(start as int, start + 1) =~= int_text(0));
        }
        return Some((0, i + 1));
    }
    let ghost dstart = i as int;
    let mut val: i64 = 0;
    let mut any = false;
    while i < len
        invariant
            0 <= start as int <= dstart <= i <= s@.len(),
            len == s@.len(),
            neg ==> dstart == start + 1 && s@[start as int] == '-',
            !neg ==> dstart == start as int,
            dstart < s@.len(),
            s@[dstart] != '0',
            0 <= val <= 0x8000_0000,
            any <==> (val >= 1),
            any <==> i > dstart,
            s@.subrange(dstart, i as int) == digits_text(val as int),
            forall|k: int| dstart <= k < i ==> is_digit(#[trigger] s@[k]),
        ensures
            0 <= start as int <= dstart <= i <= s@.len(),
            neg ==> dstart == start + 1 && s@[start as int] == '-',
            !neg ==> dstart == start as int,
            s@[dstart] != '0',
            0 <= val <= 0x8000_0000,
            any <==> (val >= 1),
            any <==> i > dstart,
            s@.subrange(dstart, i as int) == digits_text(val as int),
            forall|k: int| dstart <= k < i ==> is_digit(#[trigger] s@[k]),
            i as int == s@.len() || !is_digit(s@[i as int]),
        decreases len - i,
    {
        let c = s.get_char(i);
        let d = match char_digit(c) {
            Some(d) => d,
            None => {
                break ;
            },
        };
        if !any && d == 0 {
            // unreachable: a zero first digit was handled above
            proof {
                assert(s@[dstart] == c);
                assert(c == digit_char(0));
                assert(false);
            }
            return None;
        }
        if val > 0x8000_0000 / 10 + 1 {
            // whatever digits follow, the value is beyond 32 bits
            proof {
                lemma_run_too_large(s@, start as int, dstart, i as int, neg, val as int);
            }
            return None;
        }
        let ghost old_val = val as int;
        val = val * 10 + (d as i64);
        proof {
            assert((old_val * 10 + d) / 10 == old_val && (old_val * 10 + d) % 10 == d as int)
                by (nonlinear_arith)
                requires
                    0 <= old_val,
                    0 <= d < 10,
            ;
            assert(digits_text(val as int) == digits_text(old_val).push(digit_char(d as int)));
            assert(s@.subrange(dstart, i as int + 1) =~= s@.subrange(dstart, i as int).push(
                s@[i as int],
            ));
        }
        i = i + 1;
        if val > 0x8000_0000 {
            proof {
                lemma_run_too_large(s@, start as int, dstart, i as int, neg, val as int);
            }
            return None;
        }
        any = true;
    }
    if !any {
        proof {
            assert(!neg ==> s@[start as int] == c0);
            assert forall|n: int, end: int| !int_run_at(s@, start as int, n, end) by {
                if int_run_at(s@, start as int, n, end) {
                    lemma_int_text_facts(n);
                    assert(s@[start as int] == int_text(n)[0]);
                    if neg {
                        assert(n < 0);
                        lemma_digits_text_facts(-n);
                        assert(s@[dstart] == int_text(n)[1]);
                        assert(int_text(n)[1] == digits_text(-n)[0]);
                        assert(is_digit(s@[dstart]));
                    } else {
                        assert(is_digit(s@[dstart]));
                    }
                }
            }
        }
        return None;
    }
    if neg {
        let n64: i64 = -val;
        if n64 < i32::MIN as i64 {
            // unreachable: the loop already rejected values beyond 32 bits
            return None;
        }
        let n: i32 = n64 as i32;
        proof {
            assert(s@.subrange(start as int, i as int) =~= seq!['-'] + s@.subrange(
                dstart,
                i as int,
            ));
            assert(s@.subrange(start as int, i as int) == int_text(n as int));
            assert(int_run_at(s@, start as int, n as int, i as int));
        }
        Some((n, i))
    } else {
        if val > i32::MAX as i64 {
            proof {
                assert(val == 0x8000_0000);
                assert forall|n: int, end: int| !int_run_at(s@, start as int, n, end) by {
                    if int_run_at(s@, start as int, n, end) {
                        lemma_run_is_the_digits(s@, start as int, dstart, i as int, neg, n, end);
                        let run = s@.subrange(dstart, end);
                        assert(run.take(i - dstart) =~= s@.subrange(dstart, i as int));
                        lemma_digits_text_facts(val as int);
                        lemma_digits_val_prefix(run, i - dstart);
                        assert(digits_val_of(run) >= val);
                        lemma_int_text_facts(n);
                        if n < 0 {
                            assert(s@[start as int] == int_text(n)[0]);
                            assert(is_digit(s@[dstart]));
                        } else {
                            assert(n == digits_val_of(run));
                        }
                    }
                }
            }
            return None;
        }
        proof {
            assert(int_run_at(s@, start as int, val as int, i as int));
        }
        Some((val as i32, i))
    }
}

/// A candidate canonical run covers at least the digits read so far, so a
/// value already beyond 32 bits rules every candidate out.
proof fn lemma_run_too_large(s: Seq<char>, start: int, dstart: int, i: int, neg: bool, val: int)
    requires
        0 <= start <= dstart < i <= s.len(),
        neg ==> dstart == start + 1 && s[start] == '-',
        !neg ==> dstart == start,
        s[dstart] != '0',
        s.subrange(dstart, i) == digits_text(val),
        forall|k: int| dstart <= k < i ==> is_digit(#[trigger] s[k]),
        val > 0x8000_0000int || (val > 0x8000_0000int / 10 + 1 && i < s.len() && is_digit(s[i])),
    ensures
        forall|n: int, end: int| !int_run_at(s, start, n, end),
{
    assert forall|n: int, end: int| !int_run_at(s, start, n, end) by {
        if int_run_at(s, start, n, end) {
            lemma_run_is_the_digits(s, start, dstart, i, neg, n, end);
            let run = s.subrange(dstart, end);
            let consumed = s.subrange(dstart, i);
            assert(run.take(i - dstart) =~= consumed);
            lemma_digits_text_facts(val);
            lemma_digits_val_prefix(run, i - dstart);
            if val > 0x8000_0000int {
                assert(digits_val_of(run) >= val);
            } else {
                assert(is_digit(s[i]));
                assert(end > i);
                assert(digits_val_of(run) >= val * 10);
            }
            assert(digits_val_of(run) > 0x8000_0000int);
            if n >= 0 {
                assert(n > 0x7FFF_FFFFint);
            } else {
                assert(-n > 0x8000_0000int);
            }
        }
    }
}

/// A candidate canonical run at `start` consists, after any sign, of a
/// digit run extending at least over the digits already read, and those
/// digits are worth the candidate's magnitude.
proof fn lemma_run_is_the_digits(
    s: Seq<char>,
    start: int,
    dstart: int,
    i: int,
    neg: bool,
    n: int,
    end: int,
)
    requires
        0 <= start <= dstart <= i <= s.len(),
        neg ==> dstart == start + 1 && s[start] == '-',
        !neg ==> dstart == start && dstart < i,
        forall|k: int| dstart <= k < i ==> is_digit(#[trigger] s[k]),
        s[dstart] != '0',
        int_run_at(s, start, n, end),
    ensures
        end >= i,
        dstart < end,
        (if n >= 0 {
            digits_val_of(s.subrange(dstart, end)) == n
        } else {
            digits_val_of(s.subrange(dstart, end)) == -n
        }),
        forall|k: int|
            0 <= k < s.subrange(dstart, end).len() ==> is_digit(
                #[trigger] s.subrange(dstart, end)[k],
            ),
{
    lemma_int_text_facts(n);
    assert(s[start] == int_text(n)[0]);
    if neg {
        assert(n < 0);
    } else {
        assert(is_digit(s[dstart]));
        if n == 0 {
            assert(s[dstart] == int_text(n)[0]);
            assert(false);
        }
        assert(n > 0);
    }
    let run = s.subrange(dstart, end);
    if n > 0 {
        assert(run =~= int_text(n));
        lemma_digits_text_facts(n);
        assert(digits_val_of(run) == n);
    } else {
        assert(end >= dstart + 1) by {
            lemma_digits_text_facts(-n);
        }
        assert(run =~= int_text(n).skip(1)) by {
            assert(forall|k: int|
                0 <= k < end - dstart ==> run[k] == #[trigger] int_text(n)[k + 1]);
        }
        lemma_int_text_value(n);
        assert(digits_val_of(run) == -n);
    }
    assert forall|k: int| 0 <= k < run.len() implies is_digit(#[trigger] run[k]) by {
        if n > 0 {
            assert(run[k] == int_text(n)[k]);
        } else {
            assert(run[k] == int_text(n)[k + 1]);
        }
    }
    // the run cannot stop inside the digits already read: its boundary is
    // the text's end or a non-digit
    if end < i {
        assert(is_digit(s[end]));
        assert(false);
    }
}

/// Whether a canonical position stands at `start`, ending at `end`.
pub open spec fn pos_run_at(s: Seq<char>, start: int, p: Position, end: int) -> bool {
    &&& start < end <= s.len()
    &&& s.subrange(start, end) == pos_text(p)
}

/// Parses a canonical position `(x,y)` starting at `start`: it succeeds
/// exactly when a canonical position stands there, and the consumed text
/// is exactly the canonical text of the position returned.
fn parse_pos_at(s: &str, start: usize) -> (r: Option<(Position, usize)>)
    requires
        start <= s@.len(),
    ensures
        r matches Some(t) ==> pos_run_at(s@, start as int, t.0, t.1 as int),
        r is None ==> forall|p: Position, end: int| !pos_run_at(s@, start as int, p, end),
{
    let len = s.unicode_len();
    if start >= len || s.get_char(start) != '(' {
        proof {
            assert forall|p: Position, end: int| !pos_run_at(s@, start as int, p, end) by {
                if pos_run_at(s@, start as int, p, end) {
                    lemma_pos_decompose(s@, start as int, end, p);
                }
            }
        }
        return None;
    }
    let (x, e1) = match parse_i32_at(s, start + 1) {
        Some(t) => t,
        None => {
            proof {
                assert forall|p: Position, end: int| !pos_run_at(s@, start as int, p, end) by {
                    if pos_run_at(s@, start as int, p, end) {
                        lemma_pos_decompose(s@, start as int, end, p);
                        let ex = start + 1 + int_text(p.0 as int).len();
                        assert(!is_digit(','));
                        assert(int_run_at(s@, start + 1, p.0 as int, ex));
                    }
                }
            }
            return None;
        },
    };
    if e1 >= len || s.get_char(e1) != ',' {
        proof {
            assert forall|p: Position, end: int| !pos_run_at(s@, start as int, p, end) by {
                if pos_run_at(s@, start as int, p, end) {
                    lemma_pos_decompose(s@, start as int, end, p);
                    let ex = start + 1 + int_text(p.0 as int).len();
                    assert(!is_digit(','));
                    assert(int_run_at(s@, start + 1, p.0 as int, ex));
                    lemma_int_run_unique(
                        s@,
                        start + 1,
                        p.0 as int,
                        ex,
                        x as int,
                        e1 as int,
                    );
                }
            }
        }
        return None;
    }
    let (y, e2) = match parse_i32_at(s, e1 + 1) {
        Some(t) => t,
        None => {
            proof {
                assert forall|p: Position, end: int| !pos_run_at(s@, start as int, p, end) by {
                    if pos_run_at(s@, start as int, p, end) {
                        lemma_pos_decompose(s@, start as int, end, p);
                        let ex = start + 1 + int_text(p.0 as int).len();
                        let ey = ex + 1 + int_text(p.1 as int).len();
                        assert(!is_digit(','));
                        assert(!is_digit(')'));
                        assert(int_run_at(s@, start + 1, p.0 as int, ex));
                        lemma_int_run_unique(
                            s@,
                            start + 1,
                            p.0 as int,
                            ex,
                            x as int,
                            e1 as int,
                        );
                        assert(int_run_at(s@, e1 + 1, p.1 as int, ey));
                    }
                }
            }
            return None;
        },
    };
    if e2 >= len || s.get_char(e2) != ')' {
        proof {
            assert forall|p: Position, end: int| !pos_run_at(s@, start as int, p, end) by {
                if pos_run_at(s@, start as int, p, end) {
                    lemma_pos_decompose(s@, start as int, end, p);
                    let ex = start + 1 + int_text(p.0 as int).len();
                    let ey = ex + 1 + int_text(p.1 as int).len();
                    assert(!is_digit(','));
                    assert(!is_digit(')'));
                    assert(int_run_at(s@, start + 1, p.0 as int, ex));
                    lemma_int_run_unique(s@, start + 1, p.0 as int, ex, x as int, e1 as int);
                    assert(int_run_at(s@, e1 + 1, p.1 as int, ey));
                    lemma_int_run_unique(s@, e1 + 1, p.1 as int, ey, y as int, e2 as int);
                }
            }
        }
        return None;
    }
    let p = Position(x, y);
    proof {
        assert(s@.subrange(start as int, e2 + 1) =~= seq!['('] + s@.subrange(start + 1, e1 as int)
            + seq![','] + s@.subrange(e1 + 1, e2 as int) + seq![')']);
    }
    Some((p, e2 + 1))
}

impl Position {
    /// Parses the canonical text of a position: it succeeds exactly on the
    /// canonical text of a position, and returns exactly that position.
    pub fn from_text(s: &str) -> (r: Result<Position, String>)
        ensures
            r matches Ok(p) ==> s@ == pos_text(p),
            r is Err ==> forall|p: Position| s@ != pos_text(p),
    {
        let len = s.unicode_len();
        match parse_pos_at(s, 0) {
            Some((p, end)) => {
                if end == len {
                    proof {
                        assert(s@.subrange(0, len as int) =~= s@);
                    }
                    Ok(p)
                } else {
                    proof {
                        assert forall|q: Position| s@ != pos_text(q) by {
                            if s@ == pos_text(q) {
                                assert(s@.subrange(0, len as int) =~= s@);
                                lemma_pos_run_unique(s@, 0, q, len as int, p, end as int);
                            }
                        }
                    }
                    Err(String::from_str("text after the position"))
                }
            },
            None => {
                proof {
                    assert forall|q: Position| s@ != pos_text(q) by {
                        if s@ == pos_text(q) {
                            lemma_int_text_facts(q.0 as int);
                            assert(s@.subrange(0, s@.len() as int) =~= s@);
                            assert(pos_run_at(s@, 0, q, s@.len() as int));
                        }
                    }
                }
                Err(String::from_str("not a position"))
            },
        }
    }
}

impl Arrow {
    /// Parses the canonical text of an arrow: it succeeds exactly on one
    /// direction digit, and returns exactly that arrow.
    pub fn from_text(s: &str) -> (r: Result<Arrow, String>)
        ensures
            r matches Ok(a) ==> arrow_ok(a) && s@ == arrow_text(a),
            r is Err ==> forall|a: Arrow| arrow_ok(a) ==> s@ != arrow_text(a),
    {
        let len = s.unicode_len();
        if len != 1 {
            return Err(String::from_str("an arrow is one direction digit"));
        }
        let d = match char_digit(s.get_char(0)) {
            Some(d) => d,
            None => {
                proof {
                    assert forall|a: Arrow| arrow_ok(a) implies s@ != arrow_text(a) by {
                        if s@ == arrow_text(a) {
                            assert(s@[0] == digit_char(a.0 as int));
                        }
                    }
                }
                return Err(String::from_str("not a direction digit"));
            },
        };
        if d >= 8 {
            proof {
                assert forall|a: Arrow| arrow_ok(a) implies s@ != arrow_text(a) by {
                    if s@ == arrow_text(a) {
                        assert(s@[0] == digit_char(a.0 as int));
                        lemma_digit_char_injective(a.0 as int, d as int);
                    }
                }
            }
            return Err(String::from_str("direction digits run from 0 to 7"));
        }
        let a = Arrow(d as usize);
        proof {
            assert(s@ =~= arrow_text(a));
        }
        Ok(a)
    }
}

impl OctiMove {
    /// Parses the canonical text of a move request: it succeeds exactly on
    /// the canonical text of a move, and returns exactly the move it
    /// spells.
    pub fn from_text(s: &str) -> (r: Result<OctiMove, String>)
        ensures
            r matches Ok(m) ==> move_textable(m) && s@ == move_text(m),
            r is Err ==> forall|m: OctiMove| move_textable(m) ==> s@ != move_text(m),
    {
        let len = s.unicode_len();
        if len < 4 {
            proof {
                assert forall|m: OctiMove| move_textable(m) implies s@ != move_text(m) by {
                    if s@ == move_text(m) {
                        lemma_move_text_shape(m, s@);
                    }
                }
            }
            return Err(String::from_str("move text too short"));
        }
        let c0 = s.get_char(0);
        let c1 = s.get_char(1);
        let c2 = s.get_char(2);
        let c3 = s.get_char(3);
        if c0 == 'a' && c1 == 'r' && c2 == 'r' && c3 == ' ' {
            let (p, e) = match parse_pos_at(s, 4) {
                Some(t) => t,
                None => {
                    proof {
                        assert forall|m: OctiMove| move_textable(m) implies s@ != move_text(m) by {
                            if s@ == move_text(m) {
                                lemma_move_text_shape(m, s@);
                            }
                        }
                    }
                    return Err(String::from_str("expected a position after arr"));
                },
            };
            if len - e < 2 || s.get_char(e) != ' ' {
                proof {
                    assert forall|m: OctiMove| move_textable(m) implies s@ != move_text(m) by {
                        if s@ == move_text(m) {
                            lemma_move_text_shape(m, s@);
                            match m {
                                OctiMove::Arrow(pm, am) => {
                                    lemma_pos_run_unique(
                                        s@,
                                        4,
                                        pm,
                                        4 + pos_text(pm).len() as int,
                                        p,
                                        e as int,
                                    );
                                },
                                OctiMove::Move(pm, cm) => {
                                },
                            }
                        }
                    }
                }
                return Err(String::from_str("expected a direction after the position"));
            }
            let d = match char_digit(s.get_char(e + 1)) {
                Some(d) => d,
                None => {
                    proof {
                        assert forall|m: OctiMove| move_textable(m) implies s@ != move_text(m) by {
                            if s@ == move_text(m) {
                                lemma_move_text_shape(m, s@);
                                match m {
                                    OctiMove::Arrow(pm, am) => {
                                        lemma_pos_run_unique(
                                            s@,
                                            4,
                                            pm,
                                            4 + pos_text(pm).len() as int,
                                            p,
                                            e as int,
                                        );
                                    },
                                    OctiMove::Move(pm, cm) => {
                                    },
                                }
                            }
                        }
                    }
                    return Err(String::from_str("not a direction digit"));
                },
            };
            if d >= 8 || e + 2 != len {
                proof {
                    assert forall|m: OctiMove| move_textable(m) implies s@ != move_text(m) by {
                        if s@ == move_text(m) {
                            lemma_move_text_shape(m, s@);
                            match m {
                                OctiMove::Arrow(pm, am) => {
                                    lemma_pos_run_unique(
                                        s@,
                                        4,
                                        pm,
                                        4 + pos_text(pm).len() as int,
                                        p,
                                        e as int,
                                    );
                                    lemma_digit_char_injective(am.0 as int, d as int);
                                },
                                OctiMove::Move(pm, cm) => {
                                },
                            }
                        }
                    }
                }
                return Err(String::from_str("expected one direction digit from 0 to 7"));
            }
            let m = OctiMove::Arrow(p, Arrow(d as usize));
            proof {
                assert(s@ =~= move_text(m));
            }
            Ok(m)
        } else if c0 == 'm' && c1 == 'o' && c2 == 'v' && c3 == ' ' {
            let (p, e) = match parse_pos_at(s, 4) {
                Some(t) => t,
                None => {
                    proof {
                        assert forall|m: OctiMove| move_textable(m) implies s@ != move_text(m) by {
                            if s@ == move_text(m) {
                                lemma_move_text_shape(m, s@);
                            }
                        }
                    }
                    return Err(String::from_str("expected a position after mov"));
                },
            };
            let mut arrs: Vec<Arrow> = Vec::new();
            let mut i = e;
            proof {
                assert(s@.subrange(e as int, e as int) =~= chain_text(arrs@));
            }
            while i < len
                invariant
                    len == s@.len(),
                    s@[0] == 'm',
                    4 < e <= i <= len,
                    pos_run_at(s@, 4, p, e as int),
                    forall|k: int| 0 <= k < arrs@.len() ==> arrow_ok(#[trigger] arrs@[k]),
                    i - e == 2 * arrs@.len(),
                    s@.subrange(e as int, i as int) == chain_text(arrs@),
                decreases len - i,
            {
                let space_ok = s.get_char(i) == ' ';
                let digit_at = if space_ok && i + 1 < len {
                    char_digit(s.get_char(i + 1))
                } else {
                    None
                };
                let good = match digit_at {
                    Some(d) => d < 8,
                    None => false,
                };
                if !good {
                    proof {
                        assert forall|m: OctiMove| move_textable(m) implies s@ != move_text(m) by {
                            if s@ == move_text(m) {
                                lemma_move_text_shape(m, s@);
                                match m {
                                    OctiMove::Arrow(pm, am) => {
                                    },
                                    OctiMove::Move(pm, cm) => {
                                        lemma_rest_is_chain(
                                            s@,
                                            e as int,
                                            i as int,
                                            pm,
                                            cm@,
                                            p,
                                            arrs@.len() as int,
                                        );
                                        let j = arrs@.len() as int;
                                        lemma_chain_text_first(cm@.skip(j));
                                        assert(s@[i as int] == ' ');
                                        assert(s@[i + 1] == digit_char(cm@[j].0 as int));
                                        assert(arrow_ok(cm@[j]));
                                        match digit_at {
                                            Some(d) => {
                                                lemma_digit_char_injective(
                                                    cm@[j].0 as int,
                                                    d as int,
                                                );
                                            },
                                            None => {
                                            },
                                        }
                                    },
                                }
                            }
                        }
                    }
                    return Err(String::from_str("expected space-separated direction digits"));
                }
                let d = match digit_at {
                    Some(d) => d,
                    None => {
                        return Err(String::from_str("expected space-separated direction digits"));
                    },
                };
                let ghost arrs_before = arrs@;
                arrs.push(Arrow(d as usize));
                proof {
                    assert(arrs@.drop_last() =~= arrs_before);
                    assert(s@.subrange(e as int, i + 2) =~= s@.subrange(e as int, i as int)
                        + seq![' '] + seq![s@[i + 1]]);
                }
                i = i + 2;
            }
            if arrs.len() == 0 {
                proof {
                    assert forall|m: OctiMove| move_textable(m) implies s@ != move_text(m) by {
                        if s@ == move_text(m) {
                            lemma_move_text_shape(m, s@);
                            match m {
                                OctiMove::Arrow(pm, am) => {
                                },
                                OctiMove::Move(pm, cm) => {
                                    lemma_pos_run_unique(
                                        s@,
                                        4,
                                        pm,
                                        4 + pos_text(pm).len() as int,
                                        p,
                                        e as int,
                                    );
                                    lemma_chain_text_len(cm@);
                                },
                            }
                        }
                    }
                }
                return Err(String::from_str("a movement names at least one direction"));
            }
            let m = OctiMove::Move(p, arrs);
            proof {
                assert(s@ =~= move_text(m));
            }
            Ok(m)
        } else {
            proof {
                assert forall|m: OctiMove| move_textable(m) implies s@ != move_text(m) by {
                    if s@ == move_text(m) {
                        lemma_move_text_shape(m, s@);
                    }
                }
            }
            Err(String::from_str("unrecognized move type"))
        }
    }
}

/// In the canonical text of a movement, what follows the parsed position
/// from any hop boundary on is the chain text of the remaining hops.
proof fn lemma_rest_is_chain(
    s: Seq<char>,
    e: int,
    i: int,
    pm: Position,
    cm: Seq<Arrow>,
    p: Position,
    j: int,
)
    requires
        pos_run_at(s, 4, pm, 4 + pos_text(pm).len() as int),
        pos_run_at(s, 4, p, e),
        s.subrange(4 + pos_text(pm).len() as int, s.len() as int) == chain_text(cm),
        s.len() == 4 + pos_text(pm).len() + 2 * cm.len(),
        cm.len() >= 1,
        e <= i < s.len(),
        j >= 0,
        i - e == 2 * j,
    ensures
        e == 4 + pos_text(pm).len(),
        p == pm,
        j < cm.len(),
        cm.skip(j).len() == cm.len() - j,
        s.subrange(i, s.len() as int) == chain_text(cm.skip(j)),
{
    lemma_pos_run_unique(s, 4, pm, 4 + pos_text(pm).len() as int, p, e);
    lemma_chain_text_len(cm);
    assert(j < cm.len());
    lemma_chain_text_concat(cm, j);
    lemma_chain_text_len(cm.take(j));
    lemma_chain_text_len(cm.skip(j));
    assert(s.subrange(i, s.len() as int) =~= chain_text(cm.skip(j))) by {
        assert forall|k: int| 0 <= k < s.len() - i implies s.subrange(i, s.len() as int)[k]
            == chain_text(cm.skip(j))[k] by {
            assert(s.subrange(e, s.len() as int)[2 * j + k] == chain_text(cm)[2 * j + k]);
            assert((chain_text(cm.take(j)) + chain_text(cm.skip(j)))[2 * j + k] == chain_text(
                cm.skip(j),
            )[k]);
        }
    }
}


/// The number a digit string denotes.
pub open spec fn digits_val_of(t: Seq<char>) -> int
    decreases t.len(),
{
    if t.len() == 0 {
        0
    } else {
        digits_val_of(t.drop_last()) * 10 + digit_val(t.last())
    }
}

/// The canonical digits of a positive number are nonempty decimal digits
/// without a leading zero, and denote the number itself.
proof fn lemma_digits_text_facts(n: int)
    requires
        n >= 1,
    ensures
        digits_text(n).len() >= 1,
        forall|k: int| 0 <= k < digits_text(n).len() ==> is_digit(#[trigger] digits_text(n)[k]),
        digits_text(n)[0] != '0',
        digits_val_of(digits_text(n)) == n,
    decreases n,
{
    assert(digits_text(n) == digits_text(n / 10).push(digit_char(n % 10)));
    assert(is_digit(digit_char(n % 10)));
    assert(digit_val(digit_char(n % 10)) == n % 10);
    if n < 10 {
        assert(n / 10 == 0 && n % 10 == n);
        assert(digits_text(n) =~= seq![digit_char(n)]);
        assert(digit_char(n) != '0');
        assert(digits_text(n).drop_last() =~= Seq::<char>::empty());
        assert(digits_val_of(Seq::<char>::empty()) == 0);
        assert(digits_val_of(digits_text(n)) == digits_val_of(digits_text(n).drop_last()) * 10
            + digit_val(digits_text(n).last()));
    } else {
        assert(n / 10 >= 1);
        lemma_digits_text_facts(n / 10);
        assert(digits_text(n)[0] == digits_text(n / 10)[0]);
        assert(digits_text(n).drop_last() =~= digits_text(n / 10));
        assert((n / 10) * 10 + n % 10 == n);
    }
}

/// The canonical text of an integer is nonempty; its first character
/// classifies the sign, and every later character is a digit.
pub(crate) proof fn lemma_int_text_facts(n: int)
    ensures
        int_text(n).len() >= 1,
        forall|k: int| 1 <= k < int_text(n).len() ==> is_digit(#[trigger] int_text(n)[k]),
        n == 0 ==> int_text(n)[0] == '0',
        n > 0 ==> is_digit(int_text(n)[0]) && int_text(n)[0] != '0',
        n < 0 ==> int_text(n)[0] == '-',
{
    if n > 0 {
        lemma_digits_text_facts(n);
    } else if n < 0 {
        lemma_digits_text_facts(-n);
        assert(forall|k: int|
            1 <= k < int_text(n).len() ==> int_text(n)[k] == #[trigger] digits_text(-n)[k - 1]);
    } else {
        assert(is_digit('0'));
    }
}

/// No two integers share their canonical text.
proof fn lemma_int_text_injective(a: int, b: int)
    requires
        int_text(a) == int_text(b),
    ensures
        a == b,
{
    lemma_int_text_facts(a);
    lemma_int_text_facts(b);
    assert(!is_digit('-'));
    if a == 0 || b == 0 {
        // the text "0" starts with '0', which no other canonical text does
        assert(a == b);
    } else if a > 0 && b > 0 {
        lemma_digits_text_facts(a);
        lemma_digits_text_facts(b);
    } else if a < 0 && b < 0 {
        lemma_digits_text_facts(-a);
        lemma_digits_text_facts(-b);
        assert(digits_text(-a) =~= digits_text(-b)) by {
            assert(forall|k: int|
                0 <= k < digits_text(-a).len() ==> #[trigger] digits_text(-a)[k] == int_text(a)[k
                    + 1] && digits_text(-b)[k] == int_text(b)[k + 1]);
        }
    } else {
        // mixed signs: the first characters differ
        assert(false);
    }
}

/// Unique decomposition of a canonical integer followed by a non-digit: if
/// two such decompositions spell the same text, the integers and the tails
/// agree.
proof fn lemma_int_prefix(a: int, b: int, r1: Seq<char>, r2: Seq<char>)
    requires
        int_text(a) + r1 == int_text(b) + r2,
        r1.len() >= 1,
        r2.len() >= 1,
        !is_digit(r1[0]),
        !is_digit(r2[0]),
    ensures
        a == b,
        r1 == r2,
{
    lemma_int_text_facts(a);
    lemma_int_text_facts(b);
    let la = int_text(a).len() as int;
    let lb = int_text(b).len() as int;
    let whole = int_text(a) + r1;
    if la < lb {
        assert(whole[la] == r1[0]);
        assert(whole[la] == int_text(b)[la]);
        assert(is_digit(int_text(b)[la]));
        assert(false);
    }
    if lb < la {
        assert(whole[lb] == r2[0]);
        assert(whole[lb] == int_text(a)[lb]);
        assert(is_digit(int_text(a)[lb]));
        assert(false);
    }
    assert(int_text(a) =~= int_text(b)) by {
        assert(forall|k: int|
            0 <= k < la ==> #[trigger] int_text(a)[k] == whole[k] && int_text(b)[k] == whole[k]);
    }
    lemma_int_text_injective(a, b);
    assert(la == lb);
    assert((int_text(a) + r1).len() == la + r1.len());
    assert((int_text(b) + r2).len() == lb + r2.len());
    assert(r1.len() == r2.len());
    assert forall|k: int| 0 <= k < r1.len() implies r1[k] == r2[k] by {
        assert((int_text(a) + r1)[la + k] == r1[k]);
        assert((int_text(b) + r2)[lb + k] == r2[k]);
    }
    assert(r1 =~= r2);
}

/// A digit string is worth at least any of its prefixes; each further
/// digit multiplies the prefix's worth by ten.
proof fn lemma_digits_val_prefix(t: Seq<char>, k: int)
    requires
        0 <= k <= t.len(),
        forall|j: int| 0 <= j < t.len() ==> is_digit(#[trigger] t[j]),
    ensures
        digits_val_of(t.take(k)) >= 0,
        digits_val_of(t) >= digits_val_of(t.take(k)),
        k < t.len() ==> digits_val_of(t) >= digits_val_of(t.take(k)) * 10,
    decreases t.len(),
{
    if t.len() == 0 {
        assert(t.take(k) =~= t);
    } else {
        let d = t.last();
        assert(is_digit(d));
        assert(digit_val(d) >= 0);
        lemma_digits_val_prefix(t.drop_last(), if k <= t.len() - 1 {
            k
        } else {
            t.len() - 1
        });
        if k <= t.len() - 1 {
            assert(t.drop_last().take(k) =~= t.take(k));
            assert(digits_val_of(t.drop_last()) >= digits_val_of(t.take(k)));
        } else {
            assert(t.take(k) =~= t);
        }
    }
}

/// The value a canonical run of text denotes: text equal to the canonical
/// text of an integer denotes that integer, and its digits are worth it.
proof fn lemma_int_text_value(n: int)
    ensures
        n > 0 ==> digits_val_of(int_text(n)) == n,
        n < 0 ==> int_text(n).len() >= 2 && digits_val_of(int_text(n).skip(1)) == -n,
{
    if n > 0 {
        lemma_digits_text_facts(n);
    } else if n < 0 {
        lemma_digits_text_facts(-n);
        assert(int_text(n).skip(1) =~= digits_text(-n));
    }
}

/// Two canonical integers read from the same start of the same text, each
/// ending at the end of the text or before a non-digit, are one and the
/// same run.
pub(crate) proof fn lemma_int_run_unique(s: Seq<char>, start: int, a: int, ea: int, b: int, eb: int)
    requires
        0 <= start < ea <= s.len(),
        0 <= start < eb <= s.len(),
        s.subrange(start, ea) == int_text(a),
        s.subrange(start, eb) == int_text(b),
        ea == s.len() || !is_digit(s[ea]),
        eb == s.len() || !is_digit(s[eb]),
    ensures
        ea == eb,
        a == b,
{
    lemma_int_text_facts(a);
    lemma_int_text_facts(b);
    if ea == eb {
        lemma_int_text_injective(a, b);
    } else if ea < eb {
        assert(int_text(b)[ea - start] == s[ea]);
        assert(is_digit(int_text(b)[ea - start]));
        assert(false);
    } else {
        assert(int_text(a)[eb - start] == s[eb]);
        assert(is_digit(int_text(a)[eb - start]));
        assert(false);
    }
}

/// Reading a canonical position out of a run of text: where each of its
/// five parts stands.
proof fn lemma_pos_decompose(s: Seq<char>, start: int, end: int, p: Position)
    requires
        0 <= start <= end <= s.len(),
        s.subrange(start, end) == pos_text(p),
    ensures
        ({
            let ex = start + 1 + int_text(p.0 as int).len();
            let ey = ex + 1 + int_text(p.1 as int).len();
            &&& s[start] == '('
            &&& start + 1 < ex < ey < end
            &&& s.subrange(start + 1, ex) == int_text(p.0 as int)
            &&& s[ex] == ','
            &&& s.subrange(ex + 1, ey) == int_text(p.1 as int)
            &&& s[ey] == ')'
            &&& ey + 1 == end
        }),
{
    let xt = int_text(p.0 as int);
    let yt = int_text(p.1 as int);
    lemma_int_text_facts(p.0 as int);
    lemma_int_text_facts(p.1 as int);
    let ex = start + 1 + xt.len();
    let ey = ex + 1 + yt.len();
    assert(pos_text(p).len() == 3 + xt.len() + yt.len());
    assert forall|k: int| 0 <= k < xt.len() implies s.subrange(start + 1, ex)[k] == xt[k] by {
        assert(s.subrange(start, end)[1 + k] == pos_text(p)[1 + k]);
        assert(pos_text(p)[1 + k] == xt[k]);
    }
    assert(s.subrange(start + 1, ex) =~= xt);
    assert forall|k: int| 0 <= k < yt.len() implies s.subrange(ex + 1, ey)[k] == yt[k] by {
        assert(s.subrange(start, end)[2 + xt.len() + k] == pos_text(p)[2 + xt.len() as int + k]);
        assert(pos_text(p)[2 + xt.len() as int + k] == yt[k]);
    }
    assert(s.subrange(ex + 1, ey) =~= yt);
    assert(s[start] == pos_text(p)[0]);
    assert(s[ex] == pos_text(p)[1 + xt.len() as int]);
    assert(s[ey] == pos_text(p)[2 + xt.len() + yt.len() as int]);
}

/// Two canonical positions read from the same start of the same text are
/// one and the same run.
proof fn lemma_pos_run_unique(s: Seq<char>, start: int, p1: Position, e1: int, p2: Position, e2: int)
    requires
        0 <= start <= e1 <= s.len(),
        0 <= start <= e2 <= s.len(),
        s.subrange(start, e1) == pos_text(p1),
        s.subrange(start, e2) == pos_text(p2),
    ensures
        e1 == e2,
        p1 == p2,
{
    let r1 = s.subrange(e1, s.len() as int);
    let r2 = s.subrange(e2, s.len() as int);
    assert(pos_text(p1) + r1 =~= s.subrange(start, s.len() as int));
    assert(pos_text(p2) + r2 =~= s.subrange(start, s.len() as int));
    lemma_pos_prefix(p1, p2, r1, r2);
}

/// Splitting an arrow chain's text at a hop boundary.
proof fn lemma_chain_text_concat(c: Seq<Arrow>, j: int)
    requires
        0 <= j <= c.len(),
    ensures
        chain_text(c) == chain_text(c.take(j)) + chain_text(c.skip(j)),
    decreases c.len(),
{
    if j == c.len() {
        assert(c.take(j) =~= c);
        assert(c.skip(j) =~= Seq::<Arrow>::empty());
        assert(chain_text(c) + Seq::<char>::empty() =~= chain_text(c));
    } else {
        let d = c.drop_last();
        assert(d.take(j) =~= c.take(j));
        lemma_chain_text_concat(d, j);
        assert(c.skip(j).drop_last() =~= d.skip(j));
        assert(c.skip(j).last() == c.last());
        assert(chain_text(c.skip(j)) == chain_text(d.skip(j)) + seq![' '] + arrow_text(c.last()));
        assert((chain_text(c.take(j)) + chain_text(d.skip(j))) + seq![' '] + arrow_text(c.last())
            =~= chain_text(c.take(j)) + (chain_text(d.skip(j)) + seq![' '] + arrow_text(
            c.last(),
        )));
    }
}

/// A nonempty chain's text opens with a space and its first hop's digit.
proof fn lemma_chain_text_first(c: Seq<Arrow>)
    requires
        c.len() >= 1,
    ensures
        chain_text(c).len() == 2 * c.len(),
        chain_text(c)[0] == ' ',
        chain_text(c)[1] == digit_char(c.first().0 as int),
    decreases c.len(),
{
    lemma_chain_text_len(c);
    if c.len() == 1 {
        assert(chain_text(c) =~= seq![' ', digit_char(c.first().0 as int)]);
    } else {
        lemma_chain_text_first(c.drop_last());
        assert(c.drop_last().first() == c.first());
        assert(chain_text(c)[0] == chain_text(c.drop_last())[0]);
        assert(chain_text(c)[1] == chain_text(c.drop_last())[1]);
    }
}

/// Reading a move request out of its canonical text: where each part
/// stands.
proof fn lemma_move_text_shape(m: OctiMove, s: Seq<char>)
    requires
        move_textable(m),
        s == move_text(m),
    ensures
        s.len() >= 11,
        m matches OctiMove::Arrow(p, a) ==> ({
            let e = 4 + pos_text(p).len() as int;
            &&& s[0] == 'a' && s[1] == 'r' && s[2] == 'r' && s[3] == ' '
            &&& pos_run_at(s, 4, p, e)
            &&& e + 2 == s.len()
            &&& s[e] == ' '
            &&& s[e + 1] == digit_char(a.0 as int)
            &&& arrow_ok(a)
        }),
        m matches OctiMove::Move(p, c) ==> ({
            let e = 4 + pos_text(p).len() as int;
            &&& s[0] == 'm' && s[1] == 'o' && s[2] == 'v' && s[3] == ' '
            &&& pos_run_at(s, 4, p, e)
            &&& s.subrange(e, s.len() as int) == chain_text(c@)
            &&& s.len() == e + 2 * c@.len()
            &&& c@.len() >= 1
            &&& forall|k: int| 0 <= k < c@.len() ==> arrow_ok(#[trigger] c@[k])
        }),
{
    match m {
        OctiMove::Arrow(p, a) => {
            lemma_int_text_facts(p.0 as int);
            lemma_int_text_facts(p.1 as int);
            let e = 4 + pos_text(p).len();
            assert(s.subrange(4, e as int) =~= pos_text(p)) by {
                assert(forall|k: int|
                    0 <= k < pos_text(p).len() ==> s[4 + k] == #[trigger] pos_text(p)[k]);
            }
        },
        OctiMove::Move(p, c) => {
            lemma_int_text_facts(p.0 as int);
            lemma_int_text_facts(p.1 as int);
            lemma_chain_text_len(c@);
            let e = 4 + pos_text(p).len();
            assert(s.subrange(4, e as int) =~= pos_text(p)) by {
                assert(forall|k: int|
                    0 <= k < pos_text(p).len() ==> s[4 + k] == #[trigger] pos_text(p)[k]);
            }
            assert(s.subrange(e as int, s.len() as int) =~= chain_text(c@)) by {
                assert(forall|k: int|
                    0 <= k < chain_text(c@).len() ==> s[e + k] == #[trigger] chain_text(c@)[k]);
            }
        },
    }
}

/// Unique decomposition of a canonical position followed by anything.
proof fn lemma_pos_prefix(p1: Position, p2: Position, r1: Seq<char>, r2: Seq<char>)
    requires
        pos_text(p1) + r1 == pos_text(p2) + r2,
    ensures
        p1 == p2,
        r1 == r2,
{
    let x1 = int_text(p1.0 as int);
    let y1 = int_text(p1.1 as int);
    let x2 = int_text(p2.0 as int);
    let y2 = int_text(p2.1 as int);
    let t1 = seq![','] + y1 + seq![')'] + r1;
    let t2 = seq![','] + y2 + seq![')'] + r2;
    assert(x1 + t1 =~= (pos_text(p1) + r1).drop_first());
    assert(x2 + t2 =~= (pos_text(p2) + r2).drop_first());
    assert(!is_digit(','));
    lemma_int_prefix(p1.0 as int, p2.0 as int, t1, t2);
    let u1 = seq![')'] + r1;
    let u2 = seq![')'] + r2;
    assert(y1 + u1 =~= t1.drop_first());
    assert(y2 + u2 =~= t2.drop_first());
    assert(!is_digit(')'));
    lemma_int_prefix(p1.1 as int, p2.1 as int, u1, u2);
    assert(r1 =~= u1.drop_first());
    assert(r2 =~= u2.drop_first());
}

/// No two direction values share a digit character.
proof fn lemma_digit_char_injective(d1: int, d2: int)
    requires
        0 <= d1 < 10,
        0 <= d2 < 10,
        digit_char(d1) == digit_char(d2),
    ensures
        d1 == d2,
{
}

/// The chain text of each hop is two characters long.
proof fn lemma_chain_text_len(arrs: Seq<Arrow>)
    ensures
        chain_text(arrs).len() == 2 * arrs.len(),
    decreases arrs.len(),
{
    if arrs.len() > 0 {
        lemma_chain_text_len(arrs.drop_last());
    }
}

/// No two arrow chains share their canonical text.
proof fn lemma_chain_text_injective(a1: Seq<Arrow>, a2: Seq<Arrow>)
    requires
        forall|i: int| 0 <= i < a1.len() ==> arrow_ok(#[trigger] a1[i]),
        forall|i: int| 0 <= i < a2.len() ==> arrow_ok(#[trigger] a2[i]),
        chain_text(a1) == chain_text(a2),
    ensures
        a1 == a2,
    decreases a1.len(),
{
    lemma_chain_text_len(a1);
    lemma_chain_text_len(a2);
    if a1.len() > 0 {
        let w = chain_text(a1);
        assert(w.last() == digit_char(a1.last().0 as int));
        assert(w.last() == digit_char(a2.last().0 as int));
        lemma_digit_char_injective(a1.last().0 as int, a2.last().0 as int);
        assert(a1.last() == a2.last());
        assert(chain_text(a1.drop_last()) =~= chain_text(a2.drop_last())) by {
            lemma_chain_text_len(a1.drop_last());
            lemma_chain_text_len(a2.drop_last());
            assert(forall|k: int|
                0 <= k < chain_text(a1.drop_last()).len() ==> #[trigger] chain_text(
                    a1.drop_last(),
                )[k] == w[k] && chain_text(a2.drop_last())[k] == w[k]);
        }
        lemma_chain_text_injective(a1.drop_last(), a2.drop_last());
        assert forall|k: int| 0 <= k < a1.len() implies a1[k] == a2[k] by {
            if k < a1.len() - 1 {
                assert(a1[k] == a1.drop_last()[k]);
                assert(a2[k] == a2.drop_last()[k]);
            }
        }
        assert(a1 =~= a2);
    } else {
        assert(a1 =~= a2);
    }
}

/// Whether two move requests are the same move: the same kind, position
/// and arrows.
pub open spec fn move_like(m1: OctiMove, m2: OctiMove) -> bool {
    match (m1, m2) {
        (OctiMove::Arrow(p1, a1), OctiMove::Arrow(p2, a2)) => p1 == p2 && a1 == a2,
        (OctiMove::Move(p1, c1), OctiMove::Move(p2, c2)) => p1 == p2 && c1@ == c2@,
        _ => false,
    }
}

/// Round trip of the textual move syntax: the canonical text determines
/// the move. Together with the contracts of `to_text` (which produces
/// exactly the canonical text) and `from_text` (which succeeds exactly on
/// canonical text and returns exactly the move it spells), parsing a
/// formatted move always yields that move back.
pub proof fn lemma_text_round_trip(m1: OctiMove, m2: OctiMove)
    requires
        move_textable(m1),
        move_textable(m2),
        move_text(m1) == move_text(m2),
    ensures
        move_like(m1, m2),
{
    let w = move_text(m1);
    match (m1, m2) {
        (OctiMove::Arrow(p1, a1), OctiMove::Arrow(p2, a2)) => {
            let r1 = seq![' '] + arrow_text(a1);
            let r2 = seq![' '] + arrow_text(a2);
            assert(pos_text(p1) + r1 =~= w.skip(4));
            assert(pos_text(p2) + r2 =~= w.skip(4));
            lemma_pos_prefix(p1, p2, r1, r2);
            assert(r1[1] == digit_char(a1.0 as int));
            assert(r2[1] == digit_char(a2.0 as int));
            lemma_digit_char_injective(a1.0 as int, a2.0 as int);
        },
        (OctiMove::Move(p1, c1), OctiMove::Move(p2, c2)) => {
            assert(pos_text(p1) + chain_text(c1@) =~= w.skip(4));
            assert(pos_text(p2) + chain_text(c2@) =~= w.skip(4));
            lemma_pos_prefix(p1, p2, chain_text(c1@), chain_text(c2@));
            lemma_chain_text_injective(c1@, c2@);
        },
        (OctiMove::Arrow(p1, a1), OctiMove::Move(p2, c2)) => {
            assert(w[0] == 'a');
            assert(move_text(m2)[0] == 'm');
        },
        (OctiMove::Move(p1, c1), OctiMove::Arrow(p2, a2)) => {
            assert(w[0] == 'm');
            assert(move_text(m2)[0] == 'a');
        },
    }
}

} // verus!
