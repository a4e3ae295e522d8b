//! How a document is written down where the parser of documents and the scanner
//! of raw bytes see the same in it: what [`plain_value`] asks for. Where a value
//! ends is then the same for both.
use crate::ascii::{
    BACKSLASH, CLOSE_BRACE, CLOSE_BRACKET, COMMA, FF, LOWER_F, LOWER_N, LOWER_T, OPEN_BRACE,
    OPEN_BRACKET, QUOTE,
};
use vstd::prelude::*;

verus! {

/// Whether the white space from `i` on holds no form feed.
pub open spec fn spaced(b: Seq<u8>, i: int) -> bool {
    forall|k: int| i <= k < crate::json::ws_end(b, i) ==> b[k] != FF
}

/// Whether what is neither a string nor in brackets can end at `i`.
pub open spec fn ended(b: Seq<u8>, i: int) -> bool {
    i >= b.len() || crate::scan::ends_scalar(b[i])
}

/// Whether a word of `n` lower-case letters stands at `i`, and ends there.
pub open spec fn worded(b: Seq<u8>, i: int, n: int) -> bool {
    &&& i + n <= b.len()
    &&& forall|k: int| i <= k < i + n ==> 97 <= #[trigger] b[k] <= 122
    &&& ended(b, i + n)
}

/// Whether the string whose first byte is at `i` has no escapes.
pub open spec fn unescaped(b: Seq<u8>, i: int) -> bool {
    forall|k: int| i <= k < crate::scan::quote_at(b, i) ==> b[k] != BACKSLASH
}

/// Whether the value at `i` is written without form feeds between its tokens and
/// without escapes in its keys, with words that are words, and with something after
/// each number and word that ends it.
pub open spec fn plain_value(b: Seq<u8>, i: int) -> bool
    decreases b.len() - i, 1nat,
{
    let j = crate::json::ws_end(b, i);
    proof {
        crate::json::lemma_ws_end(b, i);
    }
    &&& spaced(b, i)
    &&& if i < 0 || j >= b.len() {
        false
    } else if b[j] == OPEN_BRACE {
        plain_members(b, j + 1)
    } else if b[j] == OPEN_BRACKET {
        plain_items(b, j + 1)
    } else if b[j] == QUOTE {
        true
    } else if b[j] == LOWER_T || b[j] == LOWER_N {
        worded(b, j, 4)
    } else if b[j] == LOWER_F {
        worded(b, j, 5)
    } else {
        ended(b, crate::json::num_end(b, j))
    }
}

/// Whether an object's members from `i` on are so written.
pub open spec fn plain_members(b: Seq<u8>, i: int) -> bool
    decreases b.len() - i, 0nat,
{
    let j = crate::json::ws_end(b, i);
    proof {
        crate::json::lemma_ws_end(b, i);
        crate::json::lemma_string_at(b, j);
    }
    &&& spaced(b, i)
    &&& if i < 0 || j >= b.len() {
        false
    } else if b[j] == CLOSE_BRACE {
        true
    } else {
        match crate::json::string_at(b, j) {
            None => false,
            Some((key, ke)) => {
                let c = crate::json::ws_end(b, ke);
                proof {
                    crate::json::lemma_ws_end(b, ke);
                }
                &&& unescaped(b, j + 1)
                &&& spaced(b, ke)
                &&& c < b.len()
                &&& plain_value(b, c + 1)
                &&& match crate::json::value_at(b, c + 1) {
                    None => false,
                    Some((val, ve)) => {
                        &&& spaced(b, ve)
                        &&& match crate::json::comma_end(b, ve) {
                            None => false,
                            Some(n) => n > i && plain_members(b, n),
                        }
                    },
                }
            },
        }
    }
}

/// Whether an array's items from `i` on are so written.
pub open spec fn plain_items(b: Seq<u8>, i: int) -> bool
    decreases b.len() - i, 2nat,
{
    let j = crate::json::ws_end(b, i);
    proof {
        crate::json::lemma_ws_end(b, i);
    }
    &&& spaced(b, i)
    &&& if i < 0 || j >= b.len() {
        false
    } else if b[j] == CLOSE_BRACKET {
        true
    } else {
        &&& plain_value(b, j)
        &&& match crate::json::value_at(b, j) {
            None => false,
            Some((val, ve)) => {
                &&& spaced(b, ve)
                &&& match crate::json::comma_end(b, ve) {
                    None => false,
                    Some(n) => n > j && plain_items(b, n),
                }
            },
        }
    }
}

/// Whether the value at `i` is written without form feeds between its tokens, with
/// words that are words, and with something after each number and word that ends it.
pub open spec fn formed_value(b: Seq<u8>, i: int) -> bool
    decreases b.len() - i, 1nat,
{
    let j = crate::json::ws_end(b, i);
    proof {
        crate::json::lemma_ws_end(b, i);
    }
    &&& spaced(b, i)
    &&& if i < 0 || j >= b.len() {
        false
    } else if b[j] == OPEN_BRACE {
        formed_members(b, j + 1)
    } else if b[j] == OPEN_BRACKET {
        formed_items(b, j + 1)
    } else if b[j] == QUOTE {
        true
    } else if b[j] == LOWER_T || b[j] == LOWER_N {
        worded(b, j, 4)
    } else if b[j] == LOWER_F {
        worded(b, j, 5)
    } else {
        ended(b, crate::json::num_end(b, j))
    }
}

/// Whether an object's members from `i` on are written like that.
pub open spec fn formed_members(b: Seq<u8>, i: int) -> bool
    decreases b.len() - i, 0nat,
{
    let j = crate::json::ws_end(b, i);
    proof {
        crate::json::lemma_ws_end(b, i);
        crate::json::lemma_string_at(b, j);
    }
    &&& spaced(b, i)
    &&& if i < 0 || j >= b.len() {
        false
    } else if b[j] == CLOSE_BRACE {
        true
    } else {
        match crate::json::string_at(b, j) {
            None => false,
            Some((key, ke)) => {
                let c = crate::json::ws_end(b, ke);
                proof {
                    crate::json::lemma_ws_end(b, ke);
                }
                &&& spaced(b, ke)
                &&& c < b.len()
                &&& formed_value(b, c + 1)
                &&& match crate::json::value_at(b, c + 1) {
                    None => false,
                    Some((val, ve)) => {
                        &&& spaced(b, ve)
                        &&& match crate::json::comma_end(b, ve) {
                            None => false,
                            Some(n) => n > i && formed_members(b, n),
                        }
                    },
                }
            },
        }
    }
}

/// Whether an array's items from `i` on are written like that.
pub open spec fn formed_items(b: Seq<u8>, i: int) -> bool
    decreases b.len() - i, 2nat,
{
    let j = crate::json::ws_end(b, i);
    proof {
        crate::json::lemma_ws_end(b, i);
    }
    &&& spaced(b, i)
    &&& if i < 0 || j >= b.len() {
        false
    } else if b[j] == CLOSE_BRACKET {
        true
    } else {
        &&& formed_value(b, j)
        &&& match crate::json::value_at(b, j) {
            None => false,
            Some((val, ve)) => {
                &&& spaced(b, ve)
                &&& match crate::json::comma_end(b, ve) {
                    None => false,
                    Some(n) => n > j && formed_items(b, n),
                }
            },
        }
    }
}

/// What is written plainly is well formed.
proof fn lemma_formed(b: Seq<u8>, i: int)
    requires
        plain_value(b, i),
    ensures
        formed_value(b, i),
    decreases b.len() - i, 1nat,
{
    let j = crate::json::ws_end(b, i);
    crate::json::lemma_ws_end(b, i);
    if b[j] == OPEN_BRACE {
        lemma_formed_members(b, j + 1);
    } else if b[j] == OPEN_BRACKET {
        lemma_formed_items(b, j + 1);
    }
}

proof fn lemma_formed_members(b: Seq<u8>, i: int)
    requires
        plain_members(b, i),
    ensures
        formed_members(b, i),
    decreases b.len() - i, 0nat,
{
    let j = crate::json::ws_end(b, i);
    crate::json::lemma_ws_end(b, i);
    if b[j] != CLOSE_BRACE {
        crate::json::lemma_string_at(b, j);
        let ke = crate::json::string_at(b, j).unwrap().1;
        crate::json::lemma_ws_end(b, ke);
        let c = crate::json::ws_end(b, ke);
        lemma_formed(b, c + 1);
        let ve = crate::json::value_at(b, c + 1).unwrap().1;
        lemma_formed_members(b, crate::json::comma_end(b, ve)->0);
    }
}

proof fn lemma_formed_items(b: Seq<u8>, i: int)
    requires
        plain_items(b, i),
    ensures
        formed_items(b, i),
    decreases b.len() - i, 2nat,
{
    let j = crate::json::ws_end(b, i);
    crate::json::lemma_ws_end(b, i);
    if b[j] != CLOSE_BRACKET {
        lemma_formed(b, j);
        let ve = crate::json::value_at(b, j).unwrap().1;
        lemma_formed_items(b, crate::json::comma_end(b, ve)->0);
    }
}

/// White space without form feeds is white space to the scanner.
pub(crate) proof fn lemma_spaced(b: Seq<u8>, i: int)
    requires
        0 <= i,
        spaced(b, i),
    ensures
        crate::scan::space_end(b, i) == crate::json::ws_end(b, i),
        crate::read::comma_end(b, i) == crate::json::comma_end(b, i),
    decreases b.len() - i,
{
    crate::json::lemma_ws_end(b, i);
    if i < b.len() && crate::json::is_ws(b[i]) {
        crate::json::lemma_ws_end(b, i + 1);
        lemma_spaced(b, i + 1);
    }
}

/// White space before a value can be left out.
pub(crate) proof fn lemma_start(b: Seq<u8>, i: int)
    requires
        0 <= i,
        plain_value(b, i),
    ensures
        crate::scan::space_end(b, i) == crate::json::ws_end(b, i),
        plain_value(b, crate::json::ws_end(b, i)),
        crate::json::value_at(b, crate::json::ws_end(b, i)) == crate::json::value_at(b, i),
        i <= crate::json::ws_end(b, i) < b.len(),
{
    lemma_spaced(b, i);
    crate::json::lemma_ws_end(b, i);
}

/// Where a string ends, and what it holds where it has no escapes.
pub(crate) proof fn lemma_string(b: Seq<u8>, i: int)
    requires
        0 <= i,
        crate::json::str_body(b, i) is Some,
    ensures
        ({
            let (bytes, e) = crate::json::str_body(b, i)->0;
            &&& crate::scan::quote_at(b, i) == e - 1
            &&& i < e <= b.len()
            &&& unescaped(b, i) ==> bytes == b.subrange(i, e - 1)
        }),
    decreases b.len() - i,
{
    if b[i] == QUOTE {
        assert(b.subrange(i, i) =~= Seq::<u8>::empty());
    } else if b[i] == BACKSLASH {
        lemma_string(b, i + 2);
        assert(i <= i < crate::scan::quote_at(b, i));
    } else {
        lemma_string(b, i + 1);
        let (rest, e) = crate::json::str_body(b, i + 1)->0;
        if unescaped(b, i) {
            assert(unescaped(b, i + 1));
            assert(seq![b[i]] + rest =~= b.subrange(i, e - 1));
        }
    }
}

/// What is no quote and no bracket is passed over.
proof fn lemma_skip(b: Seq<u8>, i: int, e: int, depth: int)
    requires
        0 <= i <= e <= b.len(),
        forall|k: int|
            i <= k < e ==> {
                &&& #[trigger] b[k] != QUOTE
                &&& b[k] != OPEN_BRACE
                &&& b[k] != CLOSE_BRACE
                &&& b[k] != OPEN_BRACKET
                &&& b[k] != CLOSE_BRACKET
            },
    ensures
        crate::scan::bracket_end(b, i, depth, false) == crate::scan::bracket_end(b, e, depth, false),
    decreases e - i,
{
    if i < e {
        lemma_skip(b, i + 1, e, depth);
    }
}

/// White space is passed over.
proof fn lemma_skip_space(b: Seq<u8>, i: int, depth: int)
    requires
        0 <= i <= b.len(),
    ensures
        crate::scan::bracket_end(b, i, depth, false) == crate::scan::bracket_end(
            b,
            crate::json::ws_end(b, i),
            depth,
            false,
        ),
    decreases b.len() - i,
{
    crate::json::lemma_ws_end(b, i);
    if i < b.len() && crate::json::is_ws(b[i]) {
        lemma_skip_space(b, i + 1, depth);
    }
}

/// A string is passed over.
proof fn lemma_skip_string(b: Seq<u8>, i: int, depth: int)
    requires
        0 <= i,
        crate::json::str_body(b, i) is Some,
    ensures
        crate::scan::bracket_end(b, i, depth, true) == crate::scan::bracket_end(
            b,
            crate::json::str_body(b, i).unwrap().1,
            depth,
            false,
        ),
    decreases b.len() - i,
{
    if b[i] != QUOTE {
        if b[i] == BACKSLASH {
            lemma_skip_string(b, i + 2, depth);
        } else {
            lemma_skip_string(b, i + 1, depth);
        }
    }
}

/// A value inside brackets is passed over.
proof fn lemma_passed(b: Seq<u8>, i: int, depth: int)
    requires
        0 <= i,
        depth >= 1,
        formed_value(b, i),
        crate::json::value_at(b, i) is Some,
    ensures
        crate::scan::bracket_end(b, i, depth, false) == crate::scan::bracket_end(
            b,
            crate::json::value_at(b, i).unwrap().1,
            depth,
            false,
        ),
    decreases b.len() - i, 1nat,
{
    let e = crate::json::value_at(b, i).unwrap().1;
    let j = crate::json::ws_end(b, i);
    crate::json::lemma_ws_end(b, i);
    crate::json::lemma_value_at(b, i);
    lemma_skip_space(b, i, depth);
    if b[j] == OPEN_BRACE {
        lemma_passed_members(b, j + 1, depth + 1);
    } else if b[j] == OPEN_BRACKET {
        lemma_passed_items(b, j + 1, depth + 1);
    } else if b[j] == QUOTE {
        lemma_skip_string(b, j + 1, depth);
    } else if b[j] == LOWER_T || b[j] == LOWER_N || b[j] == LOWER_F {
        lemma_skip(b, j, e, depth);
    } else {
        crate::json::lemma_num_end(b, j);
        lemma_skip(b, j, e, depth);
    }
}

/// The position after the bracket that closes is where what is open goes on.
pub open spec fn closed(b: Seq<u8>, e: int, depth: int) -> int {
    if depth == 1 {
        e
    } else {
        crate::scan::bracket_end(b, e, depth - 1, false)
    }
}

proof fn lemma_passed_members(b: Seq<u8>, i: int, depth: int)
    requires
        0 <= i,
        depth >= 1,
        formed_members(b, i),
        crate::json::members_at(b, i) is Some,
    ensures
        crate::scan::bracket_end(b, i, depth, false) == closed(b, crate::json::members_at(b, i).unwrap().1, depth),
    decreases b.len() - i, 0nat,
{
    let j = crate::json::ws_end(b, i);
    crate::json::lemma_ws_end(b, i);
    lemma_skip_space(b, i, depth);
    if b[j] != CLOSE_BRACE {
        crate::json::lemma_string_at(b, j);
        let ke = crate::json::string_at(b, j).unwrap().1;
        lemma_skip_string(b, j + 1, depth);
        lemma_skip_space(b, ke, depth);
        crate::json::lemma_ws_end(b, ke);
        let c = crate::json::ws_end(b, ke);
        lemma_skip(b, c, c + 1, depth);
        lemma_passed(b, c + 1, depth);
        crate::json::lemma_value_at(b, c + 1);
        crate::json::lemma_ws_end(b, c + 1);
        let ve = crate::json::value_at(b, c + 1).unwrap().1;
        lemma_skip_comma(b, ve, depth);
        lemma_passed_members(b, crate::json::comma_end(b, ve)->0, depth);
    }
}

proof fn lemma_skip_comma(b: Seq<u8>, i: int, depth: int)
    requires
        0 <= i <= b.len(),
        crate::json::comma_end(b, i) is Some,
    ensures
        crate::scan::bracket_end(b, i, depth, false) == crate::scan::bracket_end(
            b,
            crate::json::comma_end(b, i)->0,
            depth,
            false,
        ),
        i <= crate::json::comma_end(b, i)->0 <= b.len(),
{
    crate::json::lemma_ws_end(b, i);
    lemma_skip_space(b, i, depth);
    let j = crate::json::ws_end(b, i);
    if b[j] == COMMA {
        lemma_skip(b, j, j + 1, depth);
    }
}

proof fn lemma_passed_items(b: Seq<u8>, i: int, depth: int)
    requires
        0 <= i,
        depth >= 1,
        formed_items(b, i),
        crate::json::items_at(b, i) is Some,
    ensures
        crate::scan::bracket_end(b, i, depth, false) == closed(b, crate::json::items_at(b, i).unwrap().1, depth),
    decreases b.len() - i, 2nat,
{
    let j = crate::json::ws_end(b, i);
    crate::json::lemma_ws_end(b, i);
    lemma_skip_space(b, i, depth);
    if b[j] != CLOSE_BRACKET {
        lemma_passed(b, j, depth);
        crate::json::lemma_value_at(b, j);
        let ve = crate::json::value_at(b, j).unwrap().1;
        lemma_skip_comma(b, ve, depth);
        lemma_passed_items(b, crate::json::comma_end(b, ve)->0, depth);
    }
}

/// What cannot end a value that is neither a string nor in brackets belongs to it.
proof fn lemma_scalar(b: Seq<u8>, i: int, e: int)
    requires
        0 <= i <= e <= b.len(),
        forall|k: int| i <= k < e ==> !crate::scan::ends_scalar(#[trigger] b[k]),
        ended(b, e),
    ensures
        crate::scan::scalar_end(b, i) == e,
    decreases e - i,
{
    if i < e {
        lemma_scalar(b, i + 1, e);
    }
}

/// The scanner of raw bytes and the parser of documents agree on where a value ends,
/// escapes and all: of every value that is written without form feeds between its
/// tokens, with words that are words, and with something after each number and word
/// that ends it.
pub proof fn law_walkers_agree(b: Seq<u8>, i: int)
    requires
        0 <= i,
        formed_value(b, i),
        crate::json::value_at(b, i) is Some,
    ensures
        crate::scan::value_end(b, i) == crate::json::value_at(b, i).unwrap().1,
        i <= crate::scan::value_end(b, i) <= b.len(),
{
    let e = crate::json::value_at(b, i).unwrap().1;
    let j = crate::json::ws_end(b, i);
    lemma_spaced(b, i);
    crate::json::lemma_ws_end(b, i);
    crate::json::lemma_value_at(b, i);
    if b[j] == OPEN_BRACE {
        lemma_passed_members(b, j + 1, 1);
    } else if b[j] == OPEN_BRACKET {
        lemma_passed_items(b, j + 1, 1);
    } else if b[j] == QUOTE {
        lemma_string(b, j + 1);
    } else if b[j] == LOWER_T || b[j] == LOWER_N || b[j] == LOWER_F {
        lemma_scalar(b, j, e);
    } else {
        crate::json::lemma_num_end(b, j);
        lemma_scalar(b, j, e);
    }
}

/// A value that is passed over ends where it ends for the parser.
pub(crate) proof fn lemma_end(b: Seq<u8>, i: int)
    requires
        0 <= i,
        plain_value(b, i),
        crate::json::value_at(b, i) is Some,
    ensures
        crate::scan::value_end(b, i) == crate::json::value_at(b, i).unwrap().1,
{
    lemma_formed(b, i);
    law_walkers_agree(b, i);
}

/// There are as many items to count as the parser finds.
pub(crate) proof fn lemma_counted(b: Seq<u8>, i: int)
    requires
        0 <= i,
        plain_items(b, i),
        crate::json::items_at(b, i) is Some,
    ensures
        crate::read::count(b, i) == Some(crate::json::items_at(b, i).unwrap().0.len()),
    decreases b.len() - i,
{
    let j = crate::json::ws_end(b, i);
    crate::json::lemma_ws_end(b, i);
    lemma_spaced(b, i);
    if b[j] != CLOSE_BRACKET {
        lemma_end(b, j);
        crate::json::lemma_value_at(b, j);
        let ve = crate::json::value_at(b, j).unwrap().1;
        crate::json::lemma_ws_end(b, ve);
        lemma_spaced(b, ve);
        lemma_counted(b, crate::json::comma_end(b, ve)->0);
    }
}

} // verus!
