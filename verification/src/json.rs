//! A deliberately tiny, lenient JSON parser: it supports nested objects and
//! arrays, tolerates a trailing comma, and takes any literal for the one that
//! its first letter names.

use vstd::prelude::*;
use vstd::string::*;
use vstd::utf8::*;

use crate::ascii::{
    BACKSLASH, CLOSE_BRACE, CLOSE_BRACKET, COLON, COMMA, CR, DOT, FF, LF, LOWER_E, LOWER_F, LOWER_N,
    LOWER_T, MINUS, NINE, OPEN_BRACE, OPEN_BRACKET, PLUS, QUOTE, SPACE, TAB, UPPER_E, ZERO,
};
use crate::number::{parse_i128, parse_u128};
use crate::text::{str_eq, string_from_utf8};

verus! {

/// A parsed JSON value. Numbers keep their text.
#[derive(Debug)]
pub enum Json {
    Str(String),
    Num(String),
    Bool(bool),
    Null,
    Array(Vec<Json>),
    Object(Vec<(String, Json)>),
}

/// What a [`Json`] stands for.
pub enum JsonV {
    Str(Seq<char>),
    Num(Seq<char>),
    Bool(bool),
    Null,
    Array(Seq<JsonV>),
    Object(Seq<(Seq<char>, JsonV)>),
}

pub open spec fn json_view(j: Json) -> JsonV
    decreases j,
{
    match j {
        Json::Str(s) => JsonV::Str(s@),
        Json::Num(s) => JsonV::Num(s@),
        Json::Bool(b) => JsonV::Bool(b),
        Json::Null => JsonV::Null,
        Json::Array(v) => JsonV::Array(items_view(v@)),
        Json::Object(v) => JsonV::Object(members_view(v@)),
    }
}

/// What a list of items stands for.
pub open spec fn items_view(v: Seq<Json>) -> Seq<JsonV>
    decreases v,
{
    Seq::new(
        v.len(),
        |k: int|
            if 0 <= k < v.len() {
                json_view(v[k])
            } else {
                JsonV::Null
            },
    )
}

/// What a list of members stands for.
pub open spec fn members_view(v: Seq<(String, Json)>) -> Seq<(Seq<char>, JsonV)>
    decreases v,
{
    Seq::new(
        v.len(),
        |k: int|
            if 0 <= k < v.len() {
                (v[k].0@, json_view(v[k].1))
            } else {
                (Seq::empty(), JsonV::Null)
            },
    )
}

impl View for Json {
    type V = JsonV;

    open spec fn view(&self) -> JsonV {
        json_view(*self)
    }
}

/// The bytes that count as white space: space, tab, line feed, form feed and
/// carriage return.
pub open spec fn is_ws(c: u8) -> bool {
    c == SPACE || c == TAB || c == LF || c == FF || c == CR
}

/// The bytes that a number is made of.
pub open spec fn is_num_byte(c: u8) -> bool {
    (ZERO <= c && c <= NINE) || c == MINUS || c == PLUS || c == DOT || c == LOWER_E || c == UPPER_E
}

/// The first position from `i` on that is not white space.
pub open spec fn ws_end(b: Seq<u8>, i: int) -> int
    decreases b.len() - i,
{
    if 0 <= i < b.len() && is_ws(b[i]) {
        ws_end(b, i + 1)
    } else {
        i
    }
}

/// The first position from `i` on that no number goes past.
pub open spec fn num_end(b: Seq<u8>, i: int) -> int
    decreases b.len() - i,
{
    if 0 <= i < b.len() && is_num_byte(b[i]) {
        num_end(b, i + 1)
    } else {
        i
    }
}

/// The byte that a backslash followed by `c` stands for.
pub open spec fn unescape(c: u8) -> u8 {
    if c == LOWER_N {
        LF
    } else if c == LOWER_T {
        TAB
    } else {
        c
    }
}

/// The bytes from `i` up to the closing quote, with escapes resolved, and the
/// position past that quote. `None` where the text ends first.
pub open spec fn str_body(b: Seq<u8>, i: int) -> Option<(Seq<u8>, int)>
    decreases b.len() - i,
{
    if i < 0 || i >= b.len() {
        None
    } else if b[i] == QUOTE {
        Some((Seq::empty(), i + 1))
    } else if b[i] == BACKSLASH {
        if i + 1 >= b.len() {
            None
        } else {
            match str_body(b, i + 2) {
                Some((rest, e)) => Some((seq![unescape(b[i + 1])] + rest, e)),
                None => None,
            }
        }
    } else {
        match str_body(b, i + 1) {
            Some((rest, e)) => Some((seq![b[i]] + rest, e)),
            None => None,
        }
    }
}

/// The string literal at `i` and the position past it.
pub open spec fn string_at(b: Seq<u8>, i: int) -> Option<(Seq<char>, int)> {
    if 0 <= i < b.len() && b[i] == QUOTE {
        match str_body(b, i + 1) {
            Some((bytes, e)) => if valid_utf8(bytes) {
                Some((decode_utf8(bytes), e))
            } else {
                None
            },
            None => None,
        }
    } else {
        None
    }
}

/// The position `n` bytes after `i`, or the end of the text if that is nearer.
pub open spec fn step(b: Seq<u8>, i: int, n: int) -> int {
    if i + n <= b.len() {
        i + n
    } else {
        b.len() as int
    }
}

/// Past the white space from `i` on, and past one comma if there is one.
/// `None` where the text ends there.
pub open spec fn comma_end(b: Seq<u8>, i: int) -> Option<int> {
    let j = ws_end(b, i);
    if j < 0 || j >= b.len() {
        None
    } else if b[j] == COMMA {
        Some(j + 1)
    } else {
        Some(j)
    }
}

/// The value at `i` (white space before it is skipped) and the position past
/// it. `None` where the text is not one that the parser takes.
pub open spec fn value_at(b: Seq<u8>, i: int) -> Option<(JsonV, int)>
    decreases b.len() - i, 1nat,
{
    let j = ws_end(b, i);
    proof {
        lemma_ws_end(b, i);
    }
    if i < 0 || j >= b.len() {
        None
    } else if b[j] == OPEN_BRACE {
        match members_at(b, j + 1) {
            Some((kvs, e)) => Some((JsonV::Object(kvs), e)),
            None => None,
        }
    } else if b[j] == OPEN_BRACKET {
        match items_at(b, j + 1) {
            Some((vs, e)) => Some((JsonV::Array(vs), e)),
            None => None,
        }
    } else if b[j] == QUOTE {
        match string_at(b, j) {
            Some((s, e)) => Some((JsonV::Str(s), e)),
            None => None,
        }
    } else if b[j] == LOWER_T {
        Some((JsonV::Bool(true), step(b, j, 4)))
    } else if b[j] == LOWER_F {
        Some((JsonV::Bool(false), step(b, j, 5)))
    } else if b[j] == LOWER_N {
        Some((JsonV::Null, step(b, j, 4)))
    } else {
        let e = num_end(b, j);
        Some((JsonV::Num(crate::text::ascii_text(b.subrange(j, e))), e))
    }
}

/// The members of an object from `i` on, and the position past its closing
/// brace.
pub open spec fn members_at(b: Seq<u8>, i: int) -> Option<(Seq<(Seq<char>, JsonV)>, int)>
    decreases b.len() - i, 0nat,
{
    let j = ws_end(b, i);
    proof {
        lemma_ws_end(b, i);
        lemma_string_at(b, j);
    }
    if i < 0 || j >= b.len() {
        None
    } else if b[j] == CLOSE_BRACE {
        Some((Seq::empty(), j + 1))
    } else {
        match string_at(b, j) {
            None => None,
            Some((key, ke)) => {
                let c = ws_end(b, ke);
                proof {
                    lemma_ws_end(b, ke);
                }
                if c >= b.len() || b[c] != COLON {
                    None
                } else {
                    match value_at(b, c + 1) {
                        None => None,
                        Some((val, ve)) => match comma_end(b, ve) {
                            None => None,
                            Some(n) => if n <= i {
                                None
                            } else {
                                match members_at(b, n) {
                                    None => None,
                                    Some((rest, e)) => Some((seq![(key, val)] + rest, e)),
                                }
                            },
                        },
                    }
                }
            },
        }
    }
}

/// The items of an array from `i` on, and the position past its closing
/// bracket. `None` also where an item takes up nothing and no comma follows
/// it: no further item would ever be reached.
pub open spec fn items_at(b: Seq<u8>, i: int) -> Option<(Seq<JsonV>, int)>
    decreases b.len() - i, 2nat,
{
    let j = ws_end(b, i);
    proof {
        lemma_ws_end(b, i);
    }
    if i < 0 || j >= b.len() {
        None
    } else if b[j] == CLOSE_BRACKET {
        Some((Seq::empty(), j + 1))
    } else {
        match value_at(b, j) {
            None => None,
            Some((val, ve)) => match comma_end(b, ve) {
                None => None,
                Some(n) => if n <= j {
                    None
                } else {
                    match items_at(b, n) {
                        None => None,
                        Some((rest, e)) => Some((seq![val] + rest, e)),
                    }
                },
            },
        }
    }
}

pub proof fn lemma_ws_end(b: Seq<u8>, i: int)
    ensures
        ws_end(b, i) >= i,
        i <= b.len() ==> ws_end(b, i) <= b.len(),
        0 <= ws_end(b, i) < b.len() ==> !is_ws(b[ws_end(b, i)]),
        ws_end(b, ws_end(b, i)) == ws_end(b, i),
    decreases b.len() - i,
{
    if 0 <= i < b.len() && is_ws(b[i]) {
        lemma_ws_end(b, i + 1);
    }
}

pub proof fn lemma_num_end(b: Seq<u8>, i: int)
    ensures
        num_end(b, i) >= i,
        i <= b.len() ==> num_end(b, i) <= b.len(),
        forall|k: int| i <= k < num_end(b, i) ==> is_num_byte(#[trigger] b[k]),
    decreases b.len() - i,
{
    if 0 <= i < b.len() && is_num_byte(b[i]) {
        lemma_num_end(b, i + 1);
    }
}

proof fn lemma_str_body(b: Seq<u8>, i: int)
    ensures
        str_body(b, i) matches Some((_, e)) ==> i < e <= b.len(),
    decreases b.len() - i,
{
    if 0 <= i < b.len() && b[i] != QUOTE {
        if b[i] == BACKSLASH {
            if i + 1 < b.len() {
                lemma_str_body(b, i + 2);
            }
        } else {
            lemma_str_body(b, i + 1);
        }
    }
}

pub proof fn lemma_string_at(b: Seq<u8>, i: int)
    ensures
        string_at(b, i) matches Some((_, e)) ==> i + 1 < e <= b.len(),
{
    lemma_str_body(b, i + 1);
}

/// A value ends inside the text, not before it begins.
pub proof fn lemma_value_at(b: Seq<u8>, i: int)
    ensures
        value_at(b, i) matches Some((_, e)) ==> ws_end(b, i) <= e <= b.len(),
    decreases b.len() - i, 1nat,
{
    lemma_ws_end(b, i);
    let j = ws_end(b, i);
    if i >= 0 && j < b.len() {
        if b[j] == OPEN_BRACE {
            lemma_members_at(b, j + 1);
        } else if b[j] == OPEN_BRACKET {
            lemma_items_at(b, j + 1);
        } else if b[j] == QUOTE {
            lemma_string_at(b, j);
        } else {
            lemma_num_end(b, j);
        }
    }
}

proof fn lemma_comma_end(b: Seq<u8>, i: int)
    ensures
        comma_end(b, i) matches Some(n) ==> i <= n <= b.len(),
{
    lemma_ws_end(b, i);
}

proof fn lemma_members_at(b: Seq<u8>, i: int)
    ensures
        members_at(b, i) matches Some((_, e)) ==> i < e <= b.len(),
    decreases b.len() - i, 0nat,
{
    lemma_ws_end(b, i);
    let j = ws_end(b, i);
    if i >= 0 && j < b.len() && b[j] != CLOSE_BRACE {
        lemma_string_at(b, j);
        if let Some((key, ke)) = string_at(b, j) {
            lemma_ws_end(b, ke);
            let c = ws_end(b, ke);
            if c < b.len() && b[c] == COLON {
                if let Some((val, ve)) = value_at(b, c + 1) {
                    if let Some(n) = comma_end(b, ve) {
                        if n > i {
                            lemma_members_at(b, n);
                        }
                    }
                }
            }
        }
    }
}

proof fn lemma_items_at(b: Seq<u8>, i: int)
    ensures
        items_at(b, i) matches Some((_, e)) ==> i < e <= b.len(),
    decreases b.len() - i, 2nat,
{
    lemma_ws_end(b, i);
    let j = ws_end(b, i);
    if i >= 0 && j < b.len() && b[j] != CLOSE_BRACKET {
        if let Some((val, ve)) = value_at(b, j) {
            if let Some(n) = comma_end(b, ve) {
                if n > j {
                    lemma_items_at(b, n);
                }
            }
        }
    }
}

/// Moves a position past white space, and no further; one at the end or beyond it
/// stays, and so does one that was moved before.
pub fn skip_ws(b: &[u8], i: &mut usize)
    ensures
        *final(i) == ws_end(b@, *old(i) as int),
        *old(i) <= *final(i),
        *old(i) <= b@.len() ==> *final(i) <= b@.len(),
        forall|k: int| *old(i) <= k < *final(i) ==> is_ws(#[trigger] b@[k]),
        *final(i) < b@.len() ==> !is_ws(b@[*final(i) as int]),
        *old(i) >= b@.len() ==> *final(i) == *old(i),
        ws_end(b@, *final(i) as int) == *final(i),
{
    proof {
        lemma_ws_end(b@, *i as int);
    }
    while *i < b.len() && ascii_ws(b[*i])
        invariant
            *old(i) <= *i,
            *old(i) <= b@.len() ==> *i <= b@.len(),
            *old(i) >= b@.len() ==> *i == *old(i),
            ws_end(b@, *i as int) == ws_end(b@, *old(i) as int),
            forall|k: int| *old(i) <= k < *i ==> is_ws(#[trigger] b@[k]),
        decreases b@.len() - *i,
    {
        *i = *i + 1;
    }
}

fn ascii_ws(c: u8) -> (r: bool)
    ensures
        r == is_ws(c),
{
    c == SPACE || c == TAB || c == LF || c == FF || c == CR
}

fn num_byte(c: u8) -> (r: bool)
    ensures
        r == is_num_byte(c),
{
    (ZERO <= c && c <= NINE) || c == MINUS || c == PLUS || c == DOT || c == LOWER_E || c == UPPER_E
}

/// Read a string literal, and move past it. The bytes are gathered raw, so that
/// multibyte characters survive intact. Nothing where there is no literal.
pub fn parse_string(b: &[u8], i: &mut usize) -> (r: Option<String>)
    ensures
        match string_at(b@, *old(i) as int) {
            Some((s, e)) => r is Some && r->0@ == s && *final(i) == e,
            None => r is None,
        },
        *old(i) <= *final(i),
        *old(i) <= b@.len() ==> *final(i) <= b@.len(),
{
    if *i >= b.len() || b[*i] != QUOTE {
        return None;
    }
    *i = *i + 1;
    let ghost start = *i as int;
    let mut bytes: Vec<u8> = Vec::new();
    proof {
        lemma_str_body(b@, start);
    }
    loop
        invariant
            *old(i) <= *i <= b@.len(),
            match str_body(b@, *i as int) {
                Some((rest, e)) => str_body(b@, start) == Some((bytes@ + rest, e)),
                None => str_body(b@, start) is None,
            },
            *old(i) < b@.len(),
            b@[*old(i) as int] == QUOTE,
            start == *old(i) + 1,
        decreases b@.len() - *i,
    {
        if *i >= b.len() {
            return None;
        }
        let c: u8 = b[*i];
        if c == QUOTE {
            *i = *i + 1;
            assert(bytes@ + Seq::<u8>::empty() =~= bytes@);
            return string_from_utf8(bytes);
        }
        let ghost before = bytes@;
        if c == BACKSLASH {
            if b.len() - *i < 2 {
                return None;
            }
            let e: u8 = b[*i + 1];
            let byte: u8 = if e == LOWER_N {
                LF
            } else if e == LOWER_T {
                TAB
            } else {
                e
            };
            bytes.push(byte);
            proof {
                if let Some((rest, e2)) = str_body(b@, *i + 2) {
                    assert(before + (seq![unescape(b@[*i + 1])] + rest) =~= bytes@ + rest);
                }
            }
            *i = *i + 2;
        } else {
            bytes.push(c);
            proof {
                if let Some((rest, e2)) = str_body(b@, *i + 1) {
                    assert(before + (seq![b@[*i as int]] + rest) =~= bytes@ + rest);
                }
            }
            *i = *i + 1;
        }
    }
}

/// Move past `n` bytes, or to the end of the text.
fn advance(b: &[u8], i: &mut usize, n: usize)
    requires
        *old(i) <= b@.len(),
    ensures
        *final(i) == step(b@, *old(i) as int, n as int),
        *final(i) <= b@.len(),
{
    if n <= b.len() - *i {
        *i = *i + n;
    } else {
        *i = b.len();
    }
}

/// Skip white space and one comma; `false` where the text ends there.
fn skip_comma(b: &[u8], i: &mut usize) -> (r: bool)
    requires
        *old(i) <= b@.len(),
    ensures
        r == (comma_end(b@, *old(i) as int) is Some),
        r ==> *final(i) == comma_end(b@, *old(i) as int)->0,
        *final(i) <= b@.len(),
{
    skip_ws(b, i);
    if *i >= b.len() {
        return false;
    }
    if b[*i] == COMMA {
        *i = *i + 1;
    }
    true
}

fn parse_value(b: &[u8], i: &mut usize) -> (r: Option<Json>)
    requires
        *old(i) <= b@.len(),
    ensures
        match value_at(b@, *old(i) as int) {
            Some((v, e)) => r is Some && r->0@ == v && *final(i) == e,
            None => r is None,
        },
        *final(i) <= b@.len(),
    decreases b@.len() - *old(i), 1nat,
{
    proof {
        lemma_ws_end(b@, *i as int);
        lemma_value_at(b@, *i as int);
    }
    skip_ws(b, i);
    if *i >= b.len() {
        return None;
    }
    let c: u8 = b[*i];
    if c == OPEN_BRACE {
        parse_object(b, i)
    } else if c == OPEN_BRACKET {
        parse_array(b, i)
    } else if c == QUOTE {
        match parse_string(b, i) {
            Some(s) => Some(Json::Str(s)),
            None => None,
        }
    } else if c == LOWER_T {
        advance(b, i, 4);
        Some(Json::Bool(true))
    } else if c == LOWER_F {
        advance(b, i, 5);
        Some(Json::Bool(false))
    } else if c == LOWER_N {
        advance(b, i, 4);
        Some(Json::Null)
    } else {
        match parse_number(b, i) {
            Some(s) => Some(Json::Num(s)),
            None => None,
        }
    }
}

/// The text of the number at `i`, possibly empty.
fn parse_number(b: &[u8], i: &mut usize) -> (r: Option<String>)
    requires
        *old(i) <= b@.len(),
    ensures
        r is Some,
        *final(i) == num_end(b@, *old(i) as int),
        *old(i) <= *final(i) <= b@.len(),
        r->0@ == crate::text::ascii_text(b@.subrange(*old(i) as int, *final(i) as int)),
{
    let start: usize = *i;
    let mut bytes: Vec<u8> = Vec::new();
    proof {
        lemma_num_end(b@, start as int);
    }
    while *i < b.len() && num_byte(b[*i])
        invariant
            start <= *i <= b@.len(),
            num_end(b@, *i as int) == num_end(b@, start as int),
            bytes@ == b@.subrange(start as int, *i as int),
            start == *old(i),
        decreases b@.len() - *i,
    {
        bytes.push(b[*i]);
        *i = *i + 1;
    }
    proof {
        crate::text::lemma_ascii_text(bytes@);
    }
    string_from_utf8(bytes)
}

fn parse_object(b: &[u8], i: &mut usize) -> (r: Option<Json>)
    requires
        *old(i) < b@.len(),
        ws_end(b@, *old(i) as int) == *old(i),
        b@[*old(i) as int] == OPEN_BRACE,
    ensures
        match members_at(b@, *old(i) + 1) {
            Some((kvs, e)) => r is Some && r->0@ == JsonV::Object(kvs) && *final(i) == e,
            None => r is None,
        },
        *final(i) <= b@.len(),
    decreases b@.len() - *old(i), 0nat,
{
    assert(b@.len() == b.len());
    *i = *i + 1;
    let ghost start = *i as int;
    let mut out: Vec<(String, Json)> = Vec::new();
    assert(members_view(out@) =~= Seq::empty());
    assert forall|s: Seq<(Seq<char>, JsonV)>| #[trigger] (Seq::<(Seq<char>, JsonV)>::empty() + s)
        == s by {
        assert(Seq::<(Seq<char>, JsonV)>::empty() + s =~= s);
    }
    loop
        invariant
            start <= *i <= b@.len(),
            start == *old(i) + 1,
            *old(i) < b@.len(),
            match members_at(b@, *i as int) {
                Some((rest, e)) => members_at(b@, start) == Some((members_view(out@) + rest, e)),
                None => members_at(b@, start) is None,
            },
        decreases b@.len() - *i,
    {
        let ghost here = *i as int;
        proof {
            lemma_ws_end(b@, here);
        }
        skip_ws(b, i);
        if *i >= b.len() {
            return None;
        }
        let ghost j = *i as int;
        proof {
            lemma_string_at(b@, j);
        }
        if b[*i] == CLOSE_BRACE {
            *i = *i + 1;
            let r = Json::Object(out);
            assert(members_view(out@) + Seq::<(Seq<char>, JsonV)>::empty() =~= members_view(out@));
            return Some(r);
        }
        let key: String = match parse_string(b, i) {
            Some(k) => k,
            None => {
                return None;
            },
        };
        proof {
            lemma_ws_end(b@, *i as int);
        }
        skip_ws(b, i);
        if *i >= b.len() || b[*i] != COLON {
            return None;
        }
        *i = *i + 1;
        proof {
            lemma_value_at(b@, *i as int);
            lemma_ws_end(b@, *i as int);
        }
        let val: Json = match parse_value(b, i) {
            Some(v) => v,
            None => {
                return None;
            },
        };
        proof {
            lemma_comma_end(b@, *i as int);
        }
        if !skip_comma(b, i) {
            return None;
        }
        let ghost before = members_view(out@);
        let ghost k = key@;
        let ghost v = val@;
        out.push((key, val));
        proof {
            assert(members_view(out@) =~= before + seq![(k, v)]);
            if let Some((rest, e)) = members_at(b@, *i as int) {
                assert(before + (seq![(k, v)] + rest) =~= members_view(out@) + rest);
            }
        }
    }
}

fn parse_array(b: &[u8], i: &mut usize) -> (r: Option<Json>)
    requires
        *old(i) < b@.len(),
        ws_end(b@, *old(i) as int) == *old(i),
        b@[*old(i) as int] == OPEN_BRACKET,
    ensures
        match items_at(b@, *old(i) + 1) {
            Some((vs, e)) => r is Some && r->0@ == JsonV::Array(vs) && *final(i) == e,
            None => r is None,
        },
        *final(i) <= b@.len(),
    decreases b@.len() - *old(i), 0nat,
{
    assert(b@.len() == b.len());
    *i = *i + 1;
    let ghost start = *i as int;
    let mut out: Vec<Json> = Vec::new();
    assert(items_view(out@) =~= Seq::empty());
    assert forall|s: Seq<JsonV>| #[trigger] (Seq::<JsonV>::empty() + s) == s by {
        assert(Seq::<JsonV>::empty() + s =~= s);
    }
    loop
        invariant
            start <= *i <= b@.len(),
            start == *old(i) + 1,
            *old(i) < b@.len(),
            match items_at(b@, *i as int) {
                Some((rest, e)) => items_at(b@, start) == Some((items_view(out@) + rest, e)),
                None => items_at(b@, start) is None,
            },
        decreases b@.len() - *i,
    {
        proof {
            lemma_ws_end(b@, *i as int);
        }
        skip_ws(b, i);
        if *i >= b.len() {
            return None;
        }
        if b[*i] == CLOSE_BRACKET {
            *i = *i + 1;
            let r = Json::Array(out);
            assert(items_view(out@) + Seq::<JsonV>::empty() =~= items_view(out@));
            return Some(r);
        }
        let here: usize = *i;
        proof {
            lemma_value_at(b@, here as int);
        }
        let val: Json = match parse_value(b, i) {
            Some(v) => v,
            None => {
                return None;
            },
        };
        proof {
            lemma_comma_end(b@, *i as int);
        }
        if !skip_comma(b, i) {
            return None;
        }
        if *i <= here {
            return None;
        }
        let ghost before = items_view(out@);
        let ghost v = val@;
        out.push(val);
        proof {
            assert(items_view(out@) =~= before + seq![v]);
            if let Some((rest, e)) = items_at(b@, *i as int) {
                assert(before + (seq![v] + rest) =~= items_view(out@) + rest);
            }
        }
    }
}

/// The value that a text begins with, if it is one that the parser takes.
/// What follows that value is not looked at.
pub open spec fn spec_parse(text: Seq<char>) -> Option<JsonV> {
    match value_at(encode_utf8(text), 0) {
        Some((v, e)) => Some(v),
        None => None,
    }
}

/// Parse `s`, or say that it cannot be parsed.
pub fn try_parse(s: &str) -> (r: Option<Json>)
    ensures
        r is Some <==> spec_parse(s@) is Some,
        r is Some ==> r->0@ == spec_parse(s@)->0,
{
    let b: &[u8] = s.as_bytes();
    let mut i: usize = 0;
    parse_value(b, &mut i)
}

/// Parse `s`, which must be a text that the parser takes (see [`try_parse`]).
pub fn parse(s: &str) -> (r: Json)
    requires
        spec_parse(s@) is Some,
    ensures
        r@ == spec_parse(s@)->0,
{
    match try_parse(s) {
        Some(v) => v,
        None => Json::Null,
    }
}

/// The unsigned integer that a value can be read as: a number or a string that
/// writes one down, or a truth value.
pub open spec fn u128_of(v: JsonV) -> Option<nat> {
    match v {
        JsonV::Num(s) => crate::number::u128_text(s),
        JsonV::Str(s) => crate::number::u128_text(s),
        JsonV::Bool(b) => Some(
            if b {
                1
            } else {
                0
            },
        ),
        _ => None,
    }
}

/// The signed integer that a value can be read as: a number or a string that
/// writes one down.
pub open spec fn i128_of(v: JsonV) -> Option<int> {
    match v {
        JsonV::Num(s) => crate::number::i128_text(s),
        JsonV::Str(s) => crate::number::i128_text(s),
        _ => None,
    }
}

/// The position of the first member named `key`, from `k` on.
pub open spec fn member_index(kvs: Seq<(Seq<char>, JsonV)>, key: Seq<char>, k: int) -> Option<int>
    decreases kvs.len() - k,
{
    if k < 0 || k >= kvs.len() {
        None
    } else if kvs[k].0 == key {
        Some(k)
    } else {
        member_index(kvs, key, k + 1)
    }
}

/// The value of the first member named `key`; nothing where `v` has none, or
/// is no object.
pub open spec fn get_of(v: JsonV, key: Seq<char>) -> Option<JsonV> {
    match v {
        JsonV::Object(kvs) => match member_index(kvs, key, 0) {
            Some(k) => Some(kvs[k].1),
            None => None,
        },
        _ => None,
    }
}
pub(crate) proof fn lemma_member_index(kvs: Seq<(Seq<char>, JsonV)>, key: Seq<char>, k: int)
    ensures
        member_index(kvs, key, k) matches Some(i) ==> 0 <= i < kvs.len() && kvs[i].0 == key,
    decreases kvs.len() - k,
{
    if !(k < 0 || k >= kvs.len()) && kvs[k].0 != key {
        lemma_member_index(kvs, key, k + 1);
    }
}

/// A member's value is a part of the object.
pub proof fn lemma_get_of(v: JsonV, key: Seq<char>)
    ensures
        get_of(v, key) matches Some(sub) ==> decreases_to!(v => sub),
{
    if let JsonV::Object(kvs) = v {
        lemma_member_index(kvs, key, 0);
        if let Some(k) = member_index(kvs, key, 0) {
            assert(decreases_to!(v => v->Object_0));
            assert(decreases_to!(kvs => kvs[k]));
            assert(decreases_to!(kvs[k] => kvs[k].1));
        }
    }
}

impl Json {
    /// This value as an unsigned integer, where it can be read as one.
    pub fn try_u128(&self) -> (r: Option<u128>)
        ensures
            match u128_of(self@) {
                Some(n) => r is Some && r->0 == n,
                None => r is None,
            },
    {
        match self {
            Json::Num(s) => parse_u128(s.as_str()),
            Json::Str(s) => parse_u128(s.as_str()),
            Json::Bool(b) => Some(
                if *b {
                    1
                } else {
                    0
                },
            ),
            _ => None,
        }
    }

    /// This value as a signed integer, where it can be read as one.
    pub fn try_i128(&self) -> (r: Option<i128>)
        ensures
            match i128_of(self@) {
                Some(n) => r is Some && r->0 == n,
                None => r is None,
            },
    {
        match self {
            Json::Num(s) => parse_i128(s.as_str()),
            Json::Str(s) => parse_i128(s.as_str()),
            _ => None,
        }
    }

    /// This value as an unsigned integer.
    pub fn as_u128(&self) -> (r: u128)
        requires
            u128_of(self@) is Some,
        ensures
            r == u128_of(self@)->0,
    {
        match self.try_u128() {
            Some(n) => n,
            None => 0,
        }
    }

    /// This value as a signed integer.
    pub fn as_i128(&self) -> (r: i128)
        requires
            i128_of(self@) is Some,
        ensures
            r == i128_of(self@)->0,
    {
        match self.try_i128() {
            Some(n) => n,
            None => 0,
        }
    }

    /// The text of a string value.
    pub fn try_str(&self) -> (r: Option<&str>)
        ensures
            r is Some <==> self@ is Str,
            r is Some ==> r->0@ == self@->Str_0,
    {
        match self {
            Json::Str(s) => Some(s.as_str()),
            _ => None,
        }
    }

    /// The text of this value, which must be a string.
    pub fn as_str(&self) -> (r: &str)
        requires
            self@ is Str,
        ensures
            r@ == self@->Str_0,
    {
        match self.try_str() {
            Some(s) => s,
            None => "",
        }
    }

    /// The value of the first member named `key`.
    pub fn get<'a>(&'a self, key: &str) -> (r: Option<&'a Json>)
        ensures
            match get_of(self@, key@) {
                Some(v) => r is Some && r->0@ == v,
                None => r is None,
            },
    {
        match self {
            Json::Object(kvs) => {
                let mut k: usize = 0;
                while k < kvs.len()
                    invariant
                        k <= kvs@.len(),
                        member_index(members_view(kvs@), key@, 0) == member_index(
                            members_view(kvs@),
                            key@,
                            k as int,
                        ),
                        self@ == JsonV::Object(members_view(kvs@)),
                    decreases kvs@.len() - k,
                {
                    if str_eq(kvs[k].0.as_str(), key) {
                        return Some(&kvs[k].1);
                    }
                    k = k + 1;
                }
                None
            },
            _ => None,
        }
    }
}

impl Clone for Json {
    fn clone(&self) -> (r: Self)
        ensures
            r@ == self@,
        decreases self,
    {
        match self {
            Json::Str(s) => Json::Str(s.clone()),
            Json::Num(s) => Json::Num(s.clone()),
            Json::Bool(b) => Json::Bool(*b),
            Json::Null => Json::Null,
            Json::Array(v) => {
                let mut out: Vec<Json> = Vec::new();
                let mut k: usize = 0;
                while k < v.len()
                    invariant
                        k <= v@.len(),
                        out@.len() == k,
                        *self == Json::Array(*v),
                        forall|j: int| 0 <= j < k ==> (#[trigger] out@[j])@ == v@[j]@,
                    decreases v@.len() - k,
                {
                    assert(decreases_to!(*self => self->Array_0));
                    assert(decreases_to!(*v => v@));
                    assert(decreases_to!(v@ => v@[k as int]));
                    let item: Json = v[k].clone();
                    out.push(item);
                    k = k + 1;
                }
                assert(items_view(out@) =~= items_view(v@));
                Json::Array(out)
            },
            Json::Object(v) => {
                let mut out: Vec<(String, Json)> = Vec::new();
                let mut k: usize = 0;
                while k < v.len()
                    invariant
                        k <= v@.len(),
                        out@.len() == k,
                        *self == Json::Object(*v),
                        forall|j: int|
                            0 <= j < k ==> (#[trigger] out@[j]).0@ == v@[j].0@ && out@[j].1@
                                == v@[j].1@,
                    decreases v@.len() - k,
                {
                    assert(decreases_to!(*self => self->Object_0));
                    assert(decreases_to!(*v => v@));
                    assert(decreases_to!(v@ => v@[k as int]));
                    assert(decreases_to!(v@[k as int] => v@[k as int].1));
                    let item: Json = v[k].1.clone();
                    out.push((v[k].0.clone(), item));
                    k = k + 1;
                }
                assert(members_view(out@) =~= members_view(v@));
                Json::Object(out)
            },
        }
    }
}

/// White space before a value changes nothing.
pub proof fn law_leading_white_space(b: Seq<u8>, i: int)
    requires
        0 <= i,
    ensures
        value_at(b, i) == value_at(b, ws_end(b, i)),
{
    lemma_ws_end(b, i);
}

/// A comma between the last item of an array and its closing bracket changes
/// nothing: `[.. v ]` and `[.. v , ]` end in the same item.
pub proof fn law_trailing_comma_in_array(b: Seq<u8>, i: int, v: JsonV, e: int)
    requires
        0 <= i,
        ws_end(b, i) < b.len(),
        b[ws_end(b, i)] != CLOSE_BRACKET,
        value_at(b, i) == Some((v, e)),
        ws_end(b, i) < e,
    ensures
        ({
            let j = ws_end(b, e);
            j < b.len() && b[j] == CLOSE_BRACKET ==> items_at(b, i) == Some((seq![v], j + 1))
        }),
        ({
            let j = ws_end(b, e);
            let k = ws_end(b, j + 1);
            j < b.len() && b[j] == COMMA && k < b.len() && b[k] == CLOSE_BRACKET ==> items_at(b, i)
                == Some((seq![v], k + 1))
        }),
{
    lemma_ws_end(b, i);
    lemma_ws_end(b, e);
    law_leading_white_space(b, i);
    lemma_ws_end(b, ws_end(b, e) + 1);
    assert(seq![v] + Seq::<JsonV>::empty() =~= seq![v]);
    reveal_with_fuel(items_at, 2);
}

/// A comma between the last member of an object and its closing brace changes
/// nothing: `{.. "k": v }` and `{.. "k": v , }` end in the same member.
pub proof fn law_trailing_comma_in_object(
    b: Seq<u8>,
    i: int,
    key: Seq<char>,
    ke: int,
    v: JsonV,
    e: int,
)
    requires
        0 <= i,
        string_at(b, ws_end(b, i)) == Some((key, ke)),
        ws_end(b, ke) < b.len(),
        b[ws_end(b, ke)] == COLON,
        value_at(b, ws_end(b, ke) + 1) == Some((v, e)),
    ensures
        ({
            let j = ws_end(b, e);
            j < b.len() && b[j] == CLOSE_BRACE ==> members_at(b, i) == Some((seq![(key, v)], j + 1))
        }),
        ({
            let j = ws_end(b, e);
            let k = ws_end(b, j + 1);
            j < b.len() && b[j] == COMMA && k < b.len() && b[k] == CLOSE_BRACE ==> members_at(b, i)
                == Some((seq![(key, v)], k + 1))
        }),
{
    lemma_ws_end(b, i);
    lemma_string_at(b, ws_end(b, i));
    lemma_ws_end(b, ke);
    lemma_value_at(b, ws_end(b, ke) + 1);
    lemma_ws_end(b, ws_end(b, ke) + 1);
    lemma_ws_end(b, e);
    lemma_ws_end(b, ws_end(b, e) + 1);
    assert(seq![(key, v)] + Seq::<(Seq<char>, JsonV)>::empty() =~= seq![(key, v)]);
    reveal_with_fuel(members_at, 2);
}

/// A string's bytes as they are written between quotes.
pub open spec fn escaped(s: Seq<u8>) -> Seq<u8>
    decreases s.len(),
{
    if s.len() == 0 {
        Seq::empty()
    } else {
        let c = s[0];
        let head = if c == QUOTE || c == BACKSLASH {
            seq![BACKSLASH, c]
        } else if c == LF {
            seq![BACKSLASH, LOWER_N]
        } else if c == TAB {
            seq![BACKSLASH, LOWER_T]
        } else {
            seq![c]
        };
        head + escaped(s.skip(1))
    }
}

proof fn lemma_escaped_body(pre: Seq<u8>, s: Seq<u8>, post: Seq<u8>)
    ensures
        str_body(pre + escaped(s) + seq![QUOTE] + post, pre.len() as int) == Some(
            (s, (pre.len() + escaped(s).len() + 1) as int),
        ),
    decreases s.len(),
{
    let b = pre + escaped(s) + seq![QUOTE] + post;
    let i = pre.len() as int;
    if s.len() == 0 {
        assert(b[i] == QUOTE);
        assert(s =~= Seq::<u8>::empty());
    } else {
        let rest = s.skip(1);
        let head = escaped(s).take(escaped(s).len() - escaped(rest).len());
        assert(escaped(s) =~= head + escaped(rest));
        assert(head.len() == 1 || head.len() == 2);
        lemma_escaped_body(pre + head, rest, post);
        assert(b =~= (pre + head) + escaped(rest) + seq![QUOTE] + post);
        assert(b[i] == head[0]);
        if head.len() == 2 {
            assert(b[i + 1] == head[1]);
        }
        assert(seq![s[0]] + rest =~= s);
    }
}

/// Whatever a string holds, writing its bytes between quotes with quotes,
/// backslashes, tabs and line feeds escaped gives it back when parsed, and
/// what comes after it does not matter.
pub proof fn law_string_comes_back(s: Seq<char>, rest: Seq<u8>)
    ensures
        value_at(seq![QUOTE] + escaped(encode_utf8(s)) + seq![QUOTE] + rest, 0) == Some(
            (JsonV::Str(s), (escaped(encode_utf8(s)).len() + 2) as int),
        ),
{
    let bytes = encode_utf8(s);
    let b = seq![QUOTE] + escaped(bytes) + seq![QUOTE] + rest;
    lemma_escaped_body(seq![QUOTE], bytes, rest);
    encode_utf8_valid_utf8(s);
    encode_utf8_decode_utf8(s);
    assert(b[0] == QUOTE);
    assert(ws_end(b, 0) == 0);
}

/// Whether no two members have the same key.
pub open spec fn keys_differ(kvs: Seq<(Seq<char>, JsonV)>) -> bool {
    forall|i: int, j: int| 0 <= i < j < kvs.len() ==> #[trigger] kvs[i].0 != #[trigger] kvs[j].0
}

/// Where no two members have the same key, their order does not matter: a member is
/// found by its key.
pub proof fn law_members_in_any_order(
    a: Seq<(Seq<char>, JsonV)>,
    b: Seq<(Seq<char>, JsonV)>,
    key: Seq<char>,
)
    requires
        keys_differ(a),
        keys_differ(b),
        forall|m: (Seq<char>, JsonV)| #[trigger] a.contains(m) <==> b.contains(m),
    ensures
        get_of(JsonV::Object(a), key) == get_of(JsonV::Object(b), key),
{
    lemma_member_index(a, key, 0);
    lemma_member_index(b, key, 0);
    lemma_member_first(a, key, 0);
    lemma_member_first(b, key, 0);
    if let Some(i) = member_index(a, key, 0) {
        assert(a.contains(a[i]));
        let j = choose|j: int| 0 <= j < b.len() && b[j] == a[i];
        assert(b[j].0 == key);
    }
    if let Some(j) = member_index(b, key, 0) {
        assert(b.contains(b[j]));
        assert(a.contains(b[j]));
        let i = choose|i: int| 0 <= i < a.len() && a[i] == b[j];
        assert(a[i].0 == key);
    }
}

/// A member under another key does not matter, wherever it stands.
pub proof fn law_other_members_do_not_matter(
    kvs: Seq<(Seq<char>, JsonV)>,
    i: int,
    m: (Seq<char>, JsonV),
    key: Seq<char>,
)
    requires
        0 <= i <= kvs.len(),
        m.0 != key,
    ensures
        get_of(JsonV::Object(kvs.insert(i, m)), key) == get_of(JsonV::Object(kvs), key),
{
    let more = kvs.insert(i, m);
    lemma_member_index(kvs, key, 0);
    lemma_member_index(more, key, 0);
    lemma_member_first(kvs, key, 0);
    lemma_member_first(more, key, 0);
    if let Some(j) = member_index(kvs, key, 0) {
        let q = if j < i {
            j
        } else {
            j + 1
        };
        assert(more[q] == kvs[j]);
    }
    if let Some(q) = member_index(more, key, 0) {
        let j = if q < i {
            q
        } else {
            q - 1
        };
        assert(q != i);
        assert(more[q] == kvs[j]);
    }
    if let (Some(j), Some(q)) = (member_index(kvs, key, 0), member_index(more, key, 0)) {
        let p = if q < i {
            q
        } else {
            q - 1
        };
        assert(kvs[p].0 == key);
        assert(j <= p);
        let r = if j < i {
            j
        } else {
            j + 1
        };
        assert(more[r].0 == key);
        assert(q <= r);
    }
}

/// No member before the one that is found has the key, and where none is found, no
/// member has it.
proof fn lemma_member_first(kvs: Seq<(Seq<char>, JsonV)>, key: Seq<char>, k: int)
    requires
        0 <= k,
    ensures
        match member_index(kvs, key, k) {
            Some(i) => k <= i && forall|j: int| k <= j < i ==> #[trigger] kvs[j].0 != key,
            None => forall|j: int| k <= j < kvs.len() ==> #[trigger] kvs[j].0 != key,
        },
    decreases kvs.len() - k,
{
    if k < kvs.len() && kvs[k].0 != key {
        lemma_member_first(kvs, key, k + 1);
    }
}

/// Which bytes are white space, and which a number is made of.
pub proof fn law_bytes_are_told_apart(c: u8)
    ensures
        is_ws(c) <==> c == 0x20 || c == 0x09 || c == 0x0a || c == 0x0c || c == 0x0d,
        is_num_byte(c) <==> 0x30 <= c <= 0x39 || c == 0x2b || c == 0x2d || c == 0x2e || c == 0x45 || c == 0x65,
{
}

/// What an escape in a string stands for: a line feed, a tab, or the byte after the
/// backslash itself.
pub proof fn law_escape_stands_for_its_byte(pre: Seq<u8>, c: u8, post: Seq<u8>)
    ensures
        str_body(pre + seq![0x5cu8, c] + seq![0x22u8] + post, pre.len() as int) matches Some((s, e)) && s.len() == 1 && s[0]
            == (if c == 0x6e {
            0x0au8
        } else if c == 0x74 {
            0x09u8
        } else {
            c
        }) && e == pre.len() + 3,
{
    let b = pre + seq![0x5cu8, c] + seq![0x22u8] + post;
    let i = pre.len() as int;
    assert(b[i] == 0x5c && b[i + 1] == c && b[i + 2] == 0x22);
    reveal_with_fuel(str_body, 3);
}

/// What a value is read as where an integer is asked for: the one that a number or a
/// string writes down; of truth values one and zero, where no sign is needed.
pub proof fn law_integer_is_what_is_written(n: nat, b: bool)
    ensures
        n <= u128::MAX ==> u128_of(JsonV::Num(crate::jit::decimal(n))) == Some(n) && u128_of(
            JsonV::Str(crate::jit::decimal(n)),
        ) == Some(n),
        n <= i128::MAX ==> i128_of(JsonV::Num(crate::jit::decimal(n))) == Some(n as int) && i128_of(
            JsonV::Str(crate::jit::decimal(n)),
        ) == Some(n as int),
        0 - n >= i128::MIN ==> i128_of(JsonV::Num(seq!['-'] + crate::jit::decimal(n))) == Some(0 - n) && i128_of(
            JsonV::Str(seq!['-'] + crate::jit::decimal(n)),
        ) == Some(0 - n),
        u128_of(JsonV::Num(seq!['-'] + crate::jit::decimal(n))) is None,
        u128_of(JsonV::Bool(b)) == Some(
            if b {
                1nat
            } else {
                0nat
            },
        ),
        i128_of(JsonV::Bool(b)) is None,
        u128_of(JsonV::Null) is None && i128_of(JsonV::Null) is None,
{
    crate::number::law_text_is_worth_its_number(n);
}

proof fn lemma_member_is_first(kvs: Seq<(Seq<char>, JsonV)>, key: Seq<char>, k: int)
    requires
        0 <= k,
    ensures
        match member_index(kvs, key, k) {
            Some(i) => k <= i < kvs.len() && kvs[i].0 == key && forall|j: int| k <= j < i ==> (#[trigger] kvs[j]).0 != key,
            None => forall|j: int| k <= j < kvs.len() ==> (#[trigger] kvs[j]).0 != key,
        },
    decreases kvs.len() - k,
{
    if k < kvs.len() && kvs[k].0 != key {
        lemma_member_is_first(kvs, key, k + 1);
    }
}

/// The member of a key is the first of that key; what is no object has no members.
pub proof fn law_member_is_the_first_of_its_key(v: JsonV, key: Seq<char>)
    ensures
        match v {
            JsonV::Object(kvs) => match get_of(v, key) {
                Some(sub) => exists|i: int|
                    0 <= i < kvs.len() && #[trigger] kvs[i] == (key, sub) && forall|j: int|
                        0 <= j < i ==> (#[trigger] kvs[j]).0 != key,
                None => forall|j: int| 0 <= j < kvs.len() ==> (#[trigger] kvs[j]).0 != key,
            },
            _ => get_of(v, key) is None,
        },
{
    if let JsonV::Object(kvs) = v {
        lemma_member_is_first(kvs, key, 0);
        if let Some(i) = member_index(kvs, key, 0) {
            assert(kvs[i] == (key, kvs[i].1));
        }
    }
}

} // verus!
