//! Scanning raw JSON bytes: white space, strings, numbers, and whole values that
//! are passed over without being read. Positions are indices into the bytes; one
//! past a string's closing quote can lie beyond the end where the quote is
//! missing.
use crate::ascii::{
    BACKSLASH, CLOSE_BRACE, CLOSE_BRACKET, COMMA, CR, DOT, LF, LOWER_E, MINUS, NINE, OPEN_BRACE,
    OPEN_BRACKET, PLUS, QUOTE, SPACE, TAB, UPPER_E, ZERO,
};
use vstd::prelude::*;

verus! {

/// White space between tokens.
pub open spec fn is_space(c: u8) -> bool {
    c == SPACE || c == LF || c == TAB || c == CR
}

/// The position of the first byte from `i` on that is no white space.
pub open spec fn space_end(b: Seq<u8>, i: int) -> int
    decreases b.len() + 2 - i,
{
    if 0 <= i < b.len() && is_space(b[i]) {
        space_end(b, i + 1)
    } else {
        i
    }
}

/// The position of the first quote from `i` on that is not escaped, or one past
/// the last byte looked at.
pub open spec fn quote_at(b: Seq<u8>, i: int) -> int
    decreases b.len() + 2 - i,
{
    if !(0 <= i < b.len()) || b[i] == QUOTE {
        i
    } else if b[i] == BACKSLASH {
        quote_at(b, i + 2)
    } else {
        quote_at(b, i + 1)
    }
}

/// Whether a byte can be part of a number.
pub open spec fn is_number_byte(c: u8) -> bool {
    (ZERO <= c <= NINE) || c == MINUS || c == PLUS || c == DOT || c == LOWER_E || c == UPPER_E
}

/// The position of the first byte from `i` on that cannot be part of a number.
pub open spec fn number_end(b: Seq<u8>, i: int) -> int
    decreases b.len() + 2 - i,
{
    if 0 <= i < b.len() && is_number_byte(b[i]) {
        number_end(b, i + 1)
    } else {
        i
    }
}

/// The position after the bracket that closes what is open at `i`: `depth`
/// brackets and, with `in_str`, a string; or one past the last byte looked at.
pub open spec fn bracket_end(b: Seq<u8>, i: int, depth: int, in_str: bool) -> int
    decreases b.len() + 2 - i,
{
    if !(0 <= i < b.len()) {
        i
    } else if in_str {
        if b[i] == BACKSLASH {
            bracket_end(b, i + 2, depth, true)
        } else {
            bracket_end(b, i + 1, depth, b[i] != QUOTE)
        }
    } else if b[i] == QUOTE {
        bracket_end(b, i + 1, depth, true)
    } else if b[i] == OPEN_BRACE || b[i] == OPEN_BRACKET {
        bracket_end(b, i + 1, depth + 1, false)
    } else if b[i] == CLOSE_BRACE || b[i] == CLOSE_BRACKET {
        if depth == 1 {
            i + 1
        } else {
            bracket_end(b, i + 1, depth - 1, false)
        }
    } else {
        bracket_end(b, i + 1, depth, false)
    }
}

/// Whether a byte ends a value that is neither a string nor in brackets.
pub open spec fn ends_scalar(c: u8) -> bool {
    c == COMMA || c == CLOSE_BRACE || c == CLOSE_BRACKET || is_space(c)
}

/// The end of a value that is neither a string nor in brackets.
pub open spec fn scalar_end(b: Seq<u8>, i: int) -> int
    decreases b.len() + 2 - i,
{
    if 0 <= i < b.len() && !ends_scalar(b[i]) {
        scalar_end(b, i + 1)
    } else {
        i
    }
}

/// The position after the value that starts, with white space before it, at `i`.
pub open spec fn value_end(b: Seq<u8>, i: int) -> int {
    let c = space_end(b, i);
    if !(0 <= c < b.len()) {
        c
    } else if b[c] == QUOTE {
        quote_at(b, c + 1) + 1
    } else if b[c] == OPEN_BRACE || b[c] == OPEN_BRACKET {
        bracket_end(b, c, 0, false)
    } else {
        scalar_end(b, c)
    }
}

/// The string whose opening quote is the first byte from `c` on that is no white
/// space: the position of its first byte, and of its closing quote.
pub open spec fn span(b: Seq<u8>, c: int) -> (int, int) {
    let start = space_end(b, c) + 1;
    (start, quote_at(b, start))
}

/// Whether a byte is a decimal digit.
pub open spec fn is_digit(c: u8) -> bool {
    ZERO <= c <= NINE
}

/// The position of the first byte from `i` on that is no digit.
pub open spec fn digit_end(b: Seq<u8>, i: int) -> int
    decreases b.len() + 2 - i,
{
    if 0 <= i < b.len() && is_digit(b[i]) {
        digit_end(b, i + 1)
    } else {
        i
    }
}

/// The low 64 bits of the number that `acc` and the digits from `i` on write
/// down.
pub open spec fn digit_value(b: Seq<u8>, i: int, acc: int) -> int
    decreases b.len() + 2 - i,
{
    if 0 <= i < b.len() && is_digit(b[i]) {
        digit_value(b, i + 1, (acc * 10 + (b[i] - ZERO)) % 0x1_0000_0000_0000_0000)
    } else {
        acc
    }
}

/// The integer that starts, with white space before it, at `c`: its low 64 bits
/// and the position after it. A sign is read where there can be one; a `+` always
/// can.
pub open spec fn int_at(b: Seq<u8>, c: int, signed: bool) -> Option<(int, int)> {
    let p = space_end(b, c);
    if !(0 <= p < b.len()) {
        None
    } else {
        let neg = signed && b[p] == MINUS;
        let first = if neg || b[p] == PLUS {
            p + 1
        } else {
            p
        };
        let x = digit_value(b, first, 0);
        Some(
            (
                if neg {
                    (-x) % 0x1_0000_0000_0000_0000
                } else {
                    x
                },
                digit_end(b, first),
            ),
        )
    }
}

pub proof fn lemma_space_end(b: Seq<u8>, i: int)
    requires
        0 <= i,
    ensures
        i <= space_end(b, i),
        i <= b.len() ==> space_end(b, i) <= b.len(),
        space_end(b, i) < b.len() ==> !is_space(b[space_end(b, i)]),
    decreases b.len() + 2 - i,
{
    if i < b.len() && is_space(b[i]) {
        lemma_space_end(b, i + 1);
    }
}

pub proof fn lemma_quote_at(b: Seq<u8>, i: int)
    requires
        0 <= i,
    ensures
        i <= quote_at(b, i),
        i <= b.len() + 1 ==> quote_at(b, i) <= b.len() + 1,
        quote_at(b, i) < b.len() ==> b[quote_at(b, i)] == QUOTE,
    decreases b.len() + 2 - i,
{
    if i < b.len() && b[i] != QUOTE {
        if b[i] == BACKSLASH {
            lemma_quote_at(b, i + 2);
        } else {
            lemma_quote_at(b, i + 1);
        }
    }
}

pub proof fn lemma_number_end(b: Seq<u8>, i: int)
    requires
        0 <= i,
    ensures
        i <= number_end(b, i),
        i <= b.len() ==> number_end(b, i) <= b.len(),
        forall|k: int| i <= k < number_end(b, i) ==> is_number_byte(#[trigger] b[k]),
    decreases b.len() + 2 - i,
{
    if i < b.len() && is_number_byte(b[i]) {
        lemma_number_end(b, i + 1);
    }
}

pub proof fn lemma_digits(b: Seq<u8>, i: int, acc: int)
    requires
        0 <= i,
        0 <= acc < 0x1_0000_0000_0000_0000,
    ensures
        i <= digit_end(b, i),
        i <= b.len() ==> digit_end(b, i) <= b.len(),
        0 <= digit_value(b, i, acc) < 0x1_0000_0000_0000_0000,
    decreases b.len() + 2 - i,
{
    if i < b.len() && is_digit(b[i]) {
        lemma_digits(b, i + 1, (acc * 10 + (b[i] - ZERO)) % 0x1_0000_0000_0000_0000);
    }
}

proof fn lemma_bracket_end(b: Seq<u8>, i: int, depth: int, in_str: bool)
    requires
        0 <= i <= b.len() + 1,
    ensures
        i <= bracket_end(b, i, depth, in_str) <= b.len() + 1,
    decreases b.len() + 2 - i,
{
    if i < b.len() {
        if in_str {
            if b[i] == BACKSLASH {
                lemma_bracket_end(b, i + 2, depth, true);
            } else {
                lemma_bracket_end(b, i + 1, depth, b[i] != QUOTE);
            }
        } else if b[i] == QUOTE {
            lemma_bracket_end(b, i + 1, depth, true);
        } else if b[i] == OPEN_BRACE || b[i] == OPEN_BRACKET {
            lemma_bracket_end(b, i + 1, depth + 1, false);
        } else if b[i] == CLOSE_BRACE || b[i] == CLOSE_BRACKET {
            if depth != 1 {
                lemma_bracket_end(b, i + 1, depth - 1, false);
            }
        } else {
            lemma_bracket_end(b, i + 1, depth, false);
        }
    }
}

proof fn lemma_scalar_end(b: Seq<u8>, i: int)
    requires
        0 <= i <= b.len(),
    ensures
        i <= scalar_end(b, i) <= b.len(),
    decreases b.len() + 2 - i,
{
    if i < b.len() && !ends_scalar(b[i]) {
        lemma_scalar_end(b, i + 1);
    }
}

/// Passing over a value never goes back.
pub proof fn lemma_value_end(b: Seq<u8>, i: int)
    requires
        0 <= i <= b.len(),
    ensures
        i <= value_end(b, i) <= b.len() + 2,
{
    lemma_space_end(b, i);
    let c = space_end(b, i);
    if c < b.len() {
        lemma_quote_at(b, c + 1);
        lemma_bracket_end(b, c, 0, false);
        lemma_scalar_end(b, c);
    }
}

/// Whether a byte is white space.
pub fn isws(c: u8) -> (r: bool)
    ensures
        r == is_space(c),
{
    c == SPACE || c == LF || c == TAB || c == CR
}

/// Passes over white space.
pub fn rt_ws(b: &[u8], i: usize) -> (r: usize)
    ensures
        r == space_end(b@, i as int),
{
    let mut cur: usize = i;
    while cur < b.len() && isws(b[cur])
        invariant
            i <= cur,
            space_end(b@, i as int) == space_end(b@, cur as int),
        decreases b@.len() + 2 - cur,
    {
        cur = cur + 1;
    }
    cur
}

fn skip_string(b: &[u8], i: usize) -> (r: usize)
    requires
        i <= b@.len() <= isize::MAX,
    ensures
        r == quote_at(b@, i as int),
        r <= b@.len() + 1,
{
    let mut cur: usize = i;
    proof {
        lemma_quote_at(b@, i as int);
    }
    while cur < b.len() && b[cur] != QUOTE
        invariant
            b@.len() <= isize::MAX,
            cur <= b@.len() + 1,
            quote_at(b@, i as int) == quote_at(b@, cur as int),
        decreases b@.len() + 2 - cur,
    {
        if b[cur] == BACKSLASH {
            cur = cur + 2;
        } else {
            cur = cur + 1;
        }
    }
    cur
}

fn skip_brackets(b: &[u8], i: usize) -> (r: usize)
    requires
        i < b@.len() <= isize::MAX,
        b@[i as int] == OPEN_BRACE || b@[i as int] == OPEN_BRACKET,
    ensures
        r == bracket_end(b@, i as int, 0, false),
{
    let mut cur: usize = i;
    let mut depth: usize = 0;
    let mut in_str: bool = false;
    while cur < b.len()
        invariant
            b@.len() <= isize::MAX,
            i <= cur <= b@.len() + 1,
            depth <= cur,
            depth == 0 ==> cur == i && !in_str,
            i < b@.len(),
            b@[i as int] == OPEN_BRACE || b@[i as int] == OPEN_BRACKET,
            bracket_end(b@, i as int, 0, false) == bracket_end(
                b@,
                cur as int,
                depth as int,
                in_str,
            ),
        decreases b@.len() + 2 - cur,
    {
        let c: u8 = b[cur];
        if in_str {
            if c == BACKSLASH {
                cur = cur + 2;
            } else {
                if c == QUOTE {
                    in_str = false;
                }
                cur = cur + 1;
            }
        } else {
            if c == QUOTE {
                in_str = true;
            } else if c == OPEN_BRACE || c == OPEN_BRACKET {
                depth = depth + 1;
            } else if c == CLOSE_BRACE || c == CLOSE_BRACKET {
                if depth == 1 {
                    return cur + 1;
                }
                depth = depth - 1;
            }
            cur = cur + 1;
        }
    }
    cur
}

/// Passes over one value.
pub fn rt_skip(b: &[u8], i: usize) -> (r: usize)
    requires
        b@.len() <= isize::MAX,
    ensures
        r == value_end(b@, i as int),
{
    let mut cur: usize = rt_ws(b, i);
    if cur >= b.len() {
        return cur;
    }
    let c: u8 = b[cur];
    if c == QUOTE {
        return skip_string(b, cur + 1) + 1;
    }
    if c == OPEN_BRACE || c == OPEN_BRACKET {
        return skip_brackets(b, cur);
    }
    let ghost start = cur as int;
    while cur < b.len()
        invariant
            cur <= b@.len(),
            scalar_end(b@, start) == scalar_end(b@, cur as int),
        ensures
            scalar_end(b@, start) == cur,
        decreases b@.len() + 2 - cur,
    {
        let c: u8 = b[cur];
        if c == COMMA || c == CLOSE_BRACE || c == CLOSE_BRACKET || isws(c) {
            break;
        }
        cur = cur + 1;
    }
    cur
}

/// The number that starts, with white space before it, at `i`: where it begins
/// and where it ends.
pub fn number_span(b: &[u8], i: usize) -> (r: (usize, usize))
    ensures
        r.0 == space_end(b@, i as int),
        r.1 == number_end(b@, space_end(b@, i as int)),
{
    let start: usize = rt_ws(b, i);
    let mut p: usize = start;
    while p < b.len() && ((ZERO <= b[p] && b[p] <= NINE) || b[p] == MINUS || b[p] == PLUS || b[p]
        == DOT || b[p] == LOWER_E || b[p] == UPPER_E)
        invariant
            start <= p,
            start == space_end(b@, i as int),
            number_end(b@, start as int) == number_end(b@, p as int),
        decreases b@.len() - p,
    {
        p = p + 1;
    }
    (start, p)
}

/// Which bytes are white space, which can be part of a number, which are digits, and
/// which end a value that is neither a string nor in brackets.
pub proof fn law_bytes_are_told_apart(c: u8)
    ensures
        is_space(c) <==> c == 0x20 || c == 0x09 || c == 0x0a || c == 0x0d,
        is_digit(c) <==> 0x30 <= c <= 0x39,
        is_number_byte(c) <==> 0x30 <= c <= 0x39 || c == 0x2b || c == 0x2d || c == 0x2e || c == 0x45 || c == 0x65,
        ends_scalar(c) <==> c == 0x2c || c == 0x5d || c == 0x7d || c == 0x20 || c == 0x09 || c == 0x0a || c == 0x0d,
{
}

} // verus!
