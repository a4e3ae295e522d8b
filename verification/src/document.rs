//! Documents as they are written down, and that the parser gives back what was
//! written, whatever stands before and after it.
use crate::ascii::{
    BACKSLASH, CLOSE_BRACE, CLOSE_BRACKET, COLON, COMMA, LOWER_E, LOWER_F, LOWER_N, LOWER_T, OPEN_BRACE,
    OPEN_BRACKET, QUOTE,
};
use crate::json::JsonV;
use vstd::prelude::*;
use vstd::utf8::*;

verus! {

/// A document with the white space between its tokens.
pub enum Spelled {
    Null,
    Bool(bool),
    Num(Seq<u8>),
    Str(Seq<char>),
    Array(Seq<SpelledItem>, Seq<u8>),
    Object(Seq<SpelledMember>, Seq<u8>),
}

/// An item of an array, with the white space on both sides of it.
pub struct SpelledItem {
    pub before: Seq<u8>,
    pub value: Spelled,
    pub after: Seq<u8>,
}

/// A member of an object, with the white space round its key and its value.
pub struct SpelledMember {
    pub before: Seq<u8>,
    pub key: Seq<char>,
    pub between: Seq<u8>,
    pub gap: Seq<u8>,
    pub value: Spelled,
    pub after: Seq<u8>,
}

/// Whether a run of bytes is white space.
pub open spec fn is_gap(g: Seq<u8>) -> bool {
    forall|k: int| 0 <= k < g.len() ==> crate::json::is_ws(#[trigger] g[k])
}

/// Whether a run of bytes can stand for a number.
pub open spec fn is_number(t: Seq<u8>) -> bool {
    t.len() > 0 && forall|k: int| 0 <= k < t.len() ==> crate::json::is_num_byte(#[trigger] t[k])
}

/// A string's bytes with a backslash before each quote and backslash.
pub open spec fn quoted(s: Seq<u8>) -> Seq<u8>
    decreases s.len(),
{
    if s.len() == 0 {
        Seq::empty()
    } else if s[0] == QUOTE || s[0] == BACKSLASH {
        seq![BACKSLASH, s[0]] + quoted(s.skip(1))
    } else {
        seq![s[0]] + quoted(s.skip(1))
    }
}

/// A string as a literal.
pub open spec fn literal(s: Seq<char>) -> Seq<u8> {
    seq![QUOTE] + quoted(encode_utf8(s)) + seq![QUOTE]
}

/// The bytes of a document.
pub open spec fn text(d: Spelled) -> Seq<u8>
    decreases d,
{
    match d {
        Spelled::Null => seq![LOWER_N, 117, 108, 108],
        Spelled::Bool(true) => seq![LOWER_T, 114, 117, LOWER_E],
        Spelled::Bool(false) => seq![LOWER_F, 97, 108, 115, LOWER_E],
        Spelled::Num(t) => t,
        Spelled::Str(s) => literal(s),
        Spelled::Array(items, end) => seq![OPEN_BRACKET] + items_text(items) + end + seq![CLOSE_BRACKET],
        Spelled::Object(members, end) => seq![OPEN_BRACE] + members_text(members) + end + seq![CLOSE_BRACE],
    }
}

/// A comma, where more follows.
pub open spec fn comma(more: bool) -> Seq<u8> {
    if more {
        seq![COMMA]
    } else {
        Seq::empty()
    }
}

/// The bytes of an array's items.
pub open spec fn items_text(items: Seq<SpelledItem>) -> Seq<u8>
    decreases items,
{
    if items.len() == 0 {
        Seq::empty()
    } else {
        items[0].before + text(items[0].value) + items[0].after + comma(items.len() > 1) + items_text(
            items.subrange(1, items.len() as int),
        )
    }
}

/// The bytes of an object's members.
pub open spec fn members_text(members: Seq<SpelledMember>) -> Seq<u8>
    decreases members,
{
    if members.len() == 0 {
        Seq::empty()
    } else {
        let m = members[0];
        m.before + literal(m.key) + m.between + seq![COLON] + m.gap + text(members[0].value) + m.after + comma(
            members.len() > 1,
        ) + members_text(members.subrange(1, members.len() as int))
    }
}

/// What a document means.
pub open spec fn meaning(d: Spelled) -> JsonV
    decreases d,
{
    match d {
        Spelled::Null => JsonV::Null,
        Spelled::Bool(b) => JsonV::Bool(b),
        Spelled::Num(t) => JsonV::Num(crate::text::ascii_text(t)),
        Spelled::Str(s) => JsonV::Str(s),
        Spelled::Array(items, _) => JsonV::Array(items_meaning(items)),
        Spelled::Object(members, _) => JsonV::Object(members_meaning(members)),
    }
}

/// What an array's items mean, in their order.
pub open spec fn items_meaning(items: Seq<SpelledItem>) -> Seq<JsonV>
    decreases items,
{
    if items.len() == 0 {
        Seq::empty()
    } else {
        seq![meaning(items[0].value)] + items_meaning(items.subrange(1, items.len() as int))
    }
}

/// What an object's members mean, in their order.
pub open spec fn members_meaning(members: Seq<SpelledMember>) -> Seq<(Seq<char>, JsonV)>
    decreases members,
{
    if members.len() == 0 {
        Seq::empty()
    } else {
        seq![(members[0].key, meaning(members[0].value))] + members_meaning(
            members.subrange(1, members.len() as int),
        )
    }
}

/// Whether a document's gaps are white space and its numbers numbers.
pub open spec fn proper(d: Spelled) -> bool
    decreases d,
{
    match d {
        Spelled::Num(t) => is_number(t),
        Spelled::Array(items, end) => proper_items(items) && is_gap(end),
        Spelled::Object(members, end) => proper_members(members) && is_gap(end),
        _ => true,
    }
}

pub open spec fn proper_items(items: Seq<SpelledItem>) -> bool
    decreases items,
{
    items.len() > 0 ==> {
        &&& is_gap(items[0].before)
        &&& proper(items[0].value)
        &&& is_gap(items[0].after)
        &&& proper_items(items.subrange(1, items.len() as int))
    }
}

pub open spec fn proper_members(members: Seq<SpelledMember>) -> bool
    decreases members,
{
    members.len() > 0 ==> {
        &&& is_gap(members[0].before)
        &&& is_gap(members[0].between)
        &&& is_gap(members[0].gap)
        &&& proper(members[0].value)
        &&& is_gap(members[0].after)
        &&& proper_members(members.subrange(1, members.len() as int))
    }
}

/// White space up to `j` is passed over.
proof fn lemma_ws_run(b: Seq<u8>, i: int, j: int)
    requires
        0 <= i <= j <= b.len(),
        forall|k: int| i <= k < j ==> crate::json::is_ws(#[trigger] b[k]),
    ensures
        crate::json::ws_end(b, i) == crate::json::ws_end(b, j),
    decreases j - i,
{
    if i < j {
        assert(crate::json::is_ws(b[i]));
        lemma_ws_run(b, i + 1, j);
    }
}

/// A number goes on up to `j` and ends there.
proof fn lemma_num_run(b: Seq<u8>, i: int, j: int)
    requires
        0 <= i <= j <= b.len(),
        forall|k: int| i <= k < j ==> crate::json::is_num_byte(#[trigger] b[k]),
        j < b.len() ==> !crate::json::is_num_byte(b[j]),
    ensures
        crate::json::num_end(b, i) == j,
    decreases j - i,
{
    if i < j {
        assert(crate::json::is_num_byte(b[i]));
        lemma_num_run(b, i + 1, j);
    }
}

proof fn lemma_quoted_body(pre: Seq<u8>, s: Seq<u8>, post: Seq<u8>)
    ensures
        crate::json::str_body(pre + quoted(s) + seq![QUOTE] + post, pre.len() as int) == Some(
            (s, (pre.len() + quoted(s).len() + 1) as int),
        ),
    decreases s.len(),
{
    let b = pre + quoted(s) + seq![QUOTE] + post;
    let i = pre.len() as int;
    if s.len() == 0 {
        assert(b[i] == QUOTE);
        assert(s =~= Seq::<u8>::empty());
    } else {
        let rest = s.skip(1);
        let head = if s[0] == QUOTE || s[0] == BACKSLASH {
            seq![BACKSLASH, s[0]]
        } else {
            seq![s[0]]
        };
        assert(quoted(s) =~= head + quoted(rest));
        lemma_quoted_body(pre + head, rest, post);
        assert(b =~= (pre + head) + quoted(rest) + seq![QUOTE] + post);
        assert(b[i] == head[0]);
        if head.len() == 2 {
            assert(b[i + 1] == head[1]);
        }
        assert(seq![s[0]] + rest =~= s);
    }
}

/// Whatever a string holds, its literal gives it back: at any place of a text,
/// whatever stands before and after it.
pub proof fn law_literal_comes_back(pre: Seq<u8>, s: Seq<char>, rest: Seq<u8>)
    ensures
        crate::json::string_at(pre + literal(s) + rest, pre.len() as int) == Some(
            (s, (pre.len() + literal(s).len()) as int),
        ),
{
    let bytes = encode_utf8(s);
    let b = pre + literal(s) + rest;
    lemma_quoted_body(pre + seq![QUOTE], bytes, rest);
    assert(b =~= (pre + seq![QUOTE]) + quoted(bytes) + seq![QUOTE] + rest);
    encode_utf8_valid_utf8(s);
    encode_utf8_decode_utf8(s);
    assert(b[pre.len() as int] == QUOTE);
}

/// What a document begins with.
proof fn lemma_first(d: Spelled)
    requires
        proper(d),
    ensures
        text(d).len() > 0,
        !crate::json::is_ws(text(d)[0]),
        text(d)[0] != CLOSE_BRACKET,
        text(d)[0] != CLOSE_BRACE,
        text(d)[0] != COMMA,
{
    if let Spelled::Num(t) = d {
        assert(crate::json::is_num_byte(t[0]));
    }
}

/// A gap is passed over wherever it stands.
proof fn lemma_gap_at(b: Seq<u8>, pre: Seq<u8>, g: Seq<u8>, post: Seq<u8>)
    requires
        is_gap(g),
        b == pre + g + post,
    ensures
        crate::json::ws_end(b, pre.len() as int) == crate::json::ws_end(b, (pre.len() + g.len()) as int),
        post.len() > 0 && !crate::json::is_ws(post[0]) ==> crate::json::ws_end(b, pre.len() as int) == pre.len()
            + g.len() && b[(pre.len() + g.len()) as int] == post[0] && pre.len() + g.len() < b.len(),
{
    let i = pre.len() as int;
    assert forall|k: int| i <= k < i + g.len() implies crate::json::is_ws(#[trigger] b[k]) by {
        assert(b[k] == g[k - i]);
    }
    lemma_ws_run(b, i, i + g.len() as int);
}

/// An array's items begin with the item that stands there.
proof fn lemma_item_step(b: Seq<u8>, i: int, val: JsonV, ve: int, n: int)
    requires
        0 <= i,
        crate::json::ws_end(b, i) < b.len(),
        b[crate::json::ws_end(b, i)] != CLOSE_BRACKET,
        crate::json::value_at(b, crate::json::ws_end(b, i)) == Some((val, ve)),
        crate::json::comma_end(b, ve) == Some(n),
        crate::json::ws_end(b, i) < n,
        crate::json::items_at(b, n) is Some,
    ensures
        crate::json::items_at(b, i) == Some(
            (seq![val] + crate::json::items_at(b, n).unwrap().0, crate::json::items_at(b, n).unwrap().1),
        ),
{
    crate::json::lemma_ws_end(b, i);
}

/// An object's members begin with the member that stands there.
proof fn lemma_member_step(b: Seq<u8>, i: int, key: Seq<char>, ke: int, val: JsonV, ve: int, n: int)
    requires
        0 <= i,
        crate::json::ws_end(b, i) < b.len(),
        b[crate::json::ws_end(b, i)] != CLOSE_BRACE,
        crate::json::string_at(b, crate::json::ws_end(b, i)) == Some((key, ke)),
        crate::json::ws_end(b, ke) < b.len(),
        b[crate::json::ws_end(b, ke)] == COLON,
        crate::json::value_at(b, crate::json::ws_end(b, ke) + 1) == Some((val, ve)),
        crate::json::comma_end(b, ve) == Some(n),
        i < n,
        crate::json::members_at(b, n) is Some,
    ensures
        crate::json::members_at(b, i) == Some(
            (
                seq![(key, val)] + crate::json::members_at(b, n).unwrap().0,
                crate::json::members_at(b, n).unwrap().1,
            ),
        ),
{
    crate::json::lemma_ws_end(b, i);
}

/// What follows an item is white space, a comma, or the closing byte.
proof fn lemma_follow(after: Seq<u8>, more: bool, rest: Seq<u8>, end: Seq<u8>, close: u8, post: Seq<u8>)
    requires
        is_gap(after),
        is_gap(end),
        !more ==> rest.len() == 0,
        close == CLOSE_BRACKET || close == CLOSE_BRACE,
    ensures
        !crate::json::is_num_byte((after + (comma(more) + (rest + end + seq![close] + post)))[0]),
{
    let follow = after + (comma(more) + (rest + end + seq![close] + post));
    if after.len() > 0 {
        assert(follow[0] == after[0]);
    } else if more {
        assert(follow[0] == COMMA);
    } else if end.len() > 0 {
        assert(follow[0] == end[0]);
    } else {
        assert(follow[0] == close);
    }
}

/// Past an item, the white space after it and the comma, if there is one, comes what
/// follows.
proof fn lemma_separated(
    b: Seq<u8>,
    pre: Seq<u8>,
    after: Seq<u8>,
    more: bool,
    rest: Seq<u8>,
    end: Seq<u8>,
    close: u8,
    post: Seq<u8>,
)
    requires
        is_gap(after),
        is_gap(end),
        !more ==> rest.len() == 0,
        close == CLOSE_BRACKET || close == CLOSE_BRACE,
        b == pre + (after + (comma(more) + (rest + end + seq![close] + post))),
    ensures
        crate::json::comma_end(b, pre.len() as int) == Some(
            (pre.len() + after.len() + if more {
                1
            } else {
                end.len() as int
            }) as int,
        ),
{
    let i = pre.len() as int;
    if more {
        let tail = comma(more) + (rest + end + seq![close] + post);
        assert(b =~= pre + after + tail);
        assert(tail[0] == COMMA);
        lemma_gap_at(b, pre, after, tail);
    } else {
        let g = after + end;
        let tail = seq![close] + post;
        assert(b =~= pre + g + tail);
        assert(is_gap(g)) by {
            assert forall|k: int| 0 <= k < g.len() implies crate::json::is_ws(#[trigger] g[k]) by {
                if k < after.len() {
                    assert(g[k] == after[k]);
                } else {
                    assert(g[k] == end[k - after.len()]);
                }
            }
        }
        assert(tail[0] == close);
        lemma_gap_at(b, pre, g, tail);
    }
}

/// A document comes back when it is parsed: at any place of a text, with any white
/// space between its tokens, whatever stands before and after it, unless it is a
/// number and what stands after it goes on with one.
#[verifier::rlimit(40)]
#[verifier::spinoff_prover]
pub proof fn law_document_comes_back(pre: Seq<u8>, d: Spelled, post: Seq<u8>)
    requires
        proper(d),
        d is Num && post.len() > 0 ==> !crate::json::is_num_byte(post[0]),
    ensures
        crate::json::value_at(pre + text(d) + post, pre.len() as int) == Some(
            (meaning(d), (pre.len() + text(d).len()) as int),
        ),
    decreases d,
{
    let t = text(d);
    let b = pre + t + post;
    let i = pre.len() as int;
    lemma_first(d);
    assert(b[i] == t[0]);
    assert(crate::json::ws_end(b, i) == i);
    match d {
        Spelled::Num(t) => {
            lemma_number(pre, t, post);
        },
        Spelled::Str(s) => {
            law_literal_comes_back(pre, s, post);
        },
        Spelled::Array(items, end) => {
            let open = pre + seq![OPEN_BRACKET];
            lemma_items(open, items, end, post);
            assert(b =~= open + (items_text(items) + end + seq![CLOSE_BRACKET] + post));
        },
        Spelled::Object(members, end) => {
            let open = pre + seq![OPEN_BRACE];
            lemma_members(open, members, end, post);
            assert(b =~= open + (members_text(members) + end + seq![CLOSE_BRACE] + post));
        },
        _ => {},
    }
}

/// A number comes back.
proof fn lemma_number(pre: Seq<u8>, t: Seq<u8>, post: Seq<u8>)
    requires
        is_number(t),
        post.len() > 0 ==> !crate::json::is_num_byte(post[0]),
    ensures
        crate::json::value_at(pre + t + post, pre.len() as int) == Some(
            (JsonV::Num(crate::text::ascii_text(t)), (pre.len() + t.len()) as int),
        ),
{
    let b = pre + t + post;
    let i = pre.len() as int;
    let e = i + t.len() as int;
    assert forall|k: int| i <= k < e implies crate::json::is_num_byte(#[trigger] b[k]) by {
        assert(b[k] == t[k - i]);
    }
    assert(crate::json::is_num_byte(b[i]));
    lemma_num_run(b, i, e);
    assert(b.subrange(i, e) =~= t);
    assert(crate::json::ws_end(b, i) == i);
}

/// The bytes of an array from an item on, seen from the places where it is read.
proof fn lemma_item_split(
    pre: Seq<u8>,
    before: Seq<u8>,
    v: Seq<u8>,
    after: Seq<u8>,
    sep: Seq<u8>,
    rest: Seq<u8>,
    end: Seq<u8>,
    close: Seq<u8>,
    post: Seq<u8>,
)
    ensures
        ({
            let b = pre + (before + v + after + sep + rest + end + close + post);
            let tail = rest + end + close + post;
            let follow = after + (sep + tail);
            &&& b == pre + before + (v + follow)
            &&& b == pre + before + v + follow
            &&& b == pre + before + v + after + sep + tail
        }),
{
    let b = pre + (before + v + after + sep + rest + end + close + post);
    let tail = rest + end + close + post;
    let follow = after + (sep + tail);
    assert(before + v + after + sep + rest + end + close + post =~= before + (v + (after + (sep + tail))));
    assert(b =~= pre + before + (v + follow));
    assert(pre + before + (v + follow) =~= pre + before + v + follow);
    assert(pre + before + v + follow =~= pre + before + v + after + sep + tail);
}

/// An array's items are read one after the other.
proof fn lemma_item_reads(
    pre: Seq<u8>,
    it: SpelledItem,
    v: Seq<u8>,
    val: JsonV,
    more: bool,
    rest: Seq<u8>,
    vals: Seq<JsonV>,
    end: Seq<u8>,
    post: Seq<u8>,
)
    requires
        is_gap(it.before),
        is_gap(it.after),
        is_gap(end),
        v.len() > 0,
        !crate::json::is_ws(v[0]),
        v[0] != CLOSE_BRACKET,
        !more ==> rest.len() == 0 && vals.len() == 0,
        ({
            let tail = rest + end + seq![CLOSE_BRACKET] + post;
            let head = pre + it.before;
            let next = head + v + it.after + comma(more);
            &&& crate::json::value_at(head + v + (it.after + (comma(more) + tail)), head.len() as int) == Some(
                (val, (head.len() + v.len()) as int),
            )
            &&& crate::json::items_at(next + tail, next.len() as int) == Some(
                (vals, (next.len() + rest.len() + end.len() + 1) as int),
            )
        }),
    ensures
        ({
            let here = it.before + v + it.after + comma(more) + rest;
            crate::json::items_at(pre + (here + end + seq![CLOSE_BRACKET] + post), pre.len() as int) == Some(
                (seq![val] + vals, (pre.len() + here.len() + end.len() + 1) as int),
            )
        }),
{
    let tail = rest + end + seq![CLOSE_BRACKET] + post;
    let follow = it.after + (comma(more) + tail);
    let past = pre + it.before + v;
    let next = past + it.after + comma(more);
    let b = next + tail;
    lemma_item_split(pre, it.before, v, it.after, comma(more), rest, end, seq![CLOSE_BRACKET], post);
    assert((v + follow)[0] == v[0]);
    lemma_gap_at(b, pre, it.before, v + follow);
    lemma_separated(b, past, it.after, more, rest, end, CLOSE_BRACKET, post);
    let ve = past.len() as int;
    let n = crate::json::comma_end(b, ve)->0;
    if !more {
        assert(b[n] == CLOSE_BRACKET);
        assert(crate::json::ws_end(b, n) == n);
        assert(vals =~= Seq::<JsonV>::empty());
    }
    lemma_item_step(b, pre.len() as int, val, ve, n);
}

proof fn lemma_items(pre: Seq<u8>, items: Seq<SpelledItem>, end: Seq<u8>, post: Seq<u8>)
    requires
        proper_items(items),
        is_gap(end),
    ensures
        crate::json::items_at(pre + (items_text(items) + end + seq![CLOSE_BRACKET] + post), pre.len() as int) == Some(
            (items_meaning(items), (pre.len() + items_text(items).len() + end.len() + 1) as int),
        ),
    decreases items,
{
    if items.len() == 0 {
        let close = seq![CLOSE_BRACKET] + post;
        let b = pre + (items_text(items) + end + seq![CLOSE_BRACKET] + post);
        assert(b =~= pre + end + close);
        assert(close[0] == CLOSE_BRACKET);
        lemma_gap_at(b, pre, end, close);
    } else {
        let it = items[0];
        let rest = items.subrange(1, items.len() as int);
        let more = items.len() > 1;
        let others = items_text(rest);
        let head = pre + it.before;
        lemma_first(items[0].value);
        lemma_follow(it.after, more, others, end, CLOSE_BRACKET, post);
        law_document_comes_back(
            head,
            items[0].value,
            it.after + (comma(more) + (others + end + seq![CLOSE_BRACKET] + post)),
        );
        lemma_items(head + text(items[0].value) + it.after + comma(more), rest, end, post);
        lemma_item_reads(
            pre,
            it,
            text(items[0].value),
            meaning(items[0].value),
            more,
            others,
            items_meaning(rest),
            end,
            post,
        );
    }
}

/// The bytes of an object from a member on, seen from the places where it is read.
proof fn lemma_member_split(
    pre: Seq<u8>,
    m: SpelledMember,
    key: Seq<u8>,
    colon: Seq<u8>,
    v: Seq<u8>,
    sep: Seq<u8>,
    rest: Seq<u8>,
    end: Seq<u8>,
    close: Seq<u8>,
    post: Seq<u8>,
)
    ensures
        ({
            let here = m.before + key + m.between + colon + m.gap + v + m.after + sep + rest;
            let b = pre + (here + end + close + post);
            let tail = rest + end + close + post;
            let follow = m.after + (sep + tail);
            let valued = colon + (m.gap + (v + follow));
            let at_key = pre + m.before;
            let past_colon = at_key + key + m.between + colon;
            &&& b == at_key + (key + (m.between + valued))
            &&& b == at_key + key + (m.between + valued)
            &&& b == at_key + key + m.between + valued
            &&& b == past_colon + m.gap + (v + follow)
            &&& b == past_colon + m.gap + v + follow
            &&& b == past_colon + m.gap + v + m.after + sep + tail
        }),
{
    let here = m.before + key + m.between + colon + m.gap + v + m.after + sep + rest;
    let b = pre + (here + end + close + post);
    let tail = rest + end + close + post;
    let follow = m.after + (sep + tail);
    let valued = colon + (m.gap + (v + follow));
    let at_key = pre + m.before;
    let past_colon = at_key + key + m.between + colon;
    assert(here + end + close + post =~= m.before + (key + (m.between + valued))) by {
        lemma_item_split(
            m.before + key + m.between + colon,
            m.gap,
            v,
            m.after,
            sep,
            rest,
            end,
            close,
            post,
        );
        let l = m.before + key + m.between + colon;
        assert(here + end + close + post =~= l + (m.gap + v + m.after + sep + rest + end + close + post));
        assert(l + m.gap + (v + follow) =~= m.before + (key + (m.between + valued)));
    }
    assert(b =~= at_key + (key + (m.between + valued)));
    assert(b =~= at_key + key + (m.between + valued));
    assert(b =~= at_key + key + m.between + valued);
    assert(b =~= past_colon + m.gap + (v + follow));
    assert(b =~= past_colon + m.gap + v + follow);
    assert(b =~= past_colon + m.gap + v + m.after + sep + tail);
}

/// An object's members are read one after the other.
proof fn lemma_member_reads(
    pre: Seq<u8>,
    m: SpelledMember,
    v: Seq<u8>,
    val: JsonV,
    more: bool,
    rest: Seq<u8>,
    vals: Seq<(Seq<char>, JsonV)>,
    end: Seq<u8>,
    post: Seq<u8>,
)
    requires
        is_gap(m.before),
        is_gap(m.between),
        is_gap(m.gap),
        is_gap(m.after),
        is_gap(end),
        v.len() > 0,
        !crate::json::is_ws(v[0]),
        !more ==> rest.len() == 0 && vals.len() == 0,
        ({
            let tail = rest + end + seq![CLOSE_BRACE] + post;
            let head = pre + m.before + literal(m.key) + m.between + seq![COLON] + m.gap;
            let next = head + v + m.after + comma(more);
            &&& crate::json::value_at(head + v + (m.after + (comma(more) + tail)), head.len() as int) == Some(
                (val, (head.len() + v.len()) as int),
            )
            &&& crate::json::members_at(next + tail, next.len() as int) == Some(
                (vals, (next.len() + rest.len() + end.len() + 1) as int),
            )
        }),
    ensures
        ({
            let here = m.before + literal(m.key) + m.between + seq![COLON] + m.gap + v + m.after + comma(more) + rest;
            crate::json::members_at(pre + (here + end + seq![CLOSE_BRACE] + post), pre.len() as int) == Some(
                (seq![(m.key, val)] + vals, (pre.len() + here.len() + end.len() + 1) as int),
            )
        }),
{
    let key = literal(m.key);
    let tail = rest + end + seq![CLOSE_BRACE] + post;
    let follow = m.after + (comma(more) + tail);
    let valued = seq![COLON] + (m.gap + (v + follow));
    let at_key = pre + m.before;
    let past_colon = at_key + key + m.between + seq![COLON];
    let past = past_colon + m.gap + v;
    let b = past + m.after + comma(more) + tail;
    lemma_member_split(pre, m, key, seq![COLON], v, comma(more), rest, end, seq![CLOSE_BRACE], post);
    assert((key + (m.between + valued))[0] == QUOTE);
    lemma_gap_at(b, pre, m.before, key + (m.between + valued));
    law_literal_comes_back(at_key, m.key, m.between + valued);
    assert(valued[0] == COLON);
    lemma_gap_at(b, at_key + key, m.between, valued);
    assert((v + follow)[0] == v[0]);
    lemma_gap_at(b, past_colon, m.gap, v + follow);
    crate::json::law_leading_white_space(b, past_colon.len() as int);
    lemma_separated(b, past, m.after, more, rest, end, CLOSE_BRACE, post);
    let ve = past.len() as int;
    let n = crate::json::comma_end(b, ve)->0;
    if !more {
        assert(b[n] == CLOSE_BRACE);
        assert(crate::json::ws_end(b, n) == n);
        assert(vals =~= Seq::<(Seq<char>, JsonV)>::empty());
    }
    lemma_member_step(b, pre.len() as int, m.key, (at_key + key).len() as int, val, ve, n);
}

proof fn lemma_members(pre: Seq<u8>, members: Seq<SpelledMember>, end: Seq<u8>, post: Seq<u8>)
    requires
        proper_members(members),
        is_gap(end),
    ensures
        crate::json::members_at(pre + (members_text(members) + end + seq![CLOSE_BRACE] + post), pre.len() as int)
            == Some(
            (members_meaning(members), (pre.len() + members_text(members).len() + end.len() + 1) as int),
        ),
    decreases members,
{
    if members.len() == 0 {
        let close = seq![CLOSE_BRACE] + post;
        let b = pre + (members_text(members) + end + seq![CLOSE_BRACE] + post);
        assert(b =~= pre + end + close);
        assert(close[0] == CLOSE_BRACE);
        lemma_gap_at(b, pre, end, close);
    } else {
        let m = members[0];
        let rest = members.subrange(1, members.len() as int);
        let more = members.len() > 1;
        let others = members_text(rest);
        let head = pre + m.before + literal(m.key) + m.between + seq![COLON] + m.gap;
        lemma_first(members[0].value);
        lemma_follow(m.after, more, others, end, CLOSE_BRACE, post);
        law_document_comes_back(
            head,
            members[0].value,
            m.after + (comma(more) + (others + end + seq![CLOSE_BRACE] + post)),
        );
        lemma_members(head + text(members[0].value) + m.after + comma(more), rest, end, post);
        lemma_member_reads(
            pre,
            m,
            text(members[0].value),
            meaning(members[0].value),
            more,
            others,
            members_meaning(rest),
            end,
            post,
        );
    }
}

/// White space between the tokens of a document changes nothing: two documents that
/// mean the same are parsed to the same.
pub proof fn law_gaps_change_nothing(d: Spelled, other: Spelled)
    requires
        proper(d),
        proper(other),
        meaning(d) == meaning(other),
    ensures
        crate::json::value_at(text(d), 0).unwrap().0 == crate::json::value_at(text(other), 0).unwrap().0,
        crate::json::value_at(text(d), 0) is Some,
        crate::json::value_at(text(other), 0) is Some,
{
    let nothing = Seq::<u8>::empty();
    law_document_comes_back(nothing, d, nothing);
    law_document_comes_back(nothing, other, nothing);
    assert(nothing + text(d) + nothing =~= text(d));
    assert(nothing + text(other) + nothing =~= text(other));
}

/// A value written down with no white space at all.
pub open spec fn compact(v: JsonV) -> Spelled
    decreases v,
{
    match v {
        JsonV::Str(s) => Spelled::Str(s),
        JsonV::Num(s) => Spelled::Num(encode_utf8(s)),
        JsonV::Bool(b) => Spelled::Bool(b),
        JsonV::Null => Spelled::Null,
        JsonV::Array(vs) => Spelled::Array(compact_items(vs), Seq::empty()),
        JsonV::Object(kvs) => Spelled::Object(compact_members(kvs), Seq::empty()),
    }
}

pub open spec fn compact_items(vs: Seq<JsonV>) -> Seq<SpelledItem>
    decreases vs,
{
    if vs.len() == 0 {
        Seq::empty()
    } else {
        seq![SpelledItem { before: Seq::empty(), value: compact(vs[0]), after: Seq::empty() }] + compact_items(
            vs.subrange(1, vs.len() as int),
        )
    }
}

pub open spec fn compact_members(kvs: Seq<(Seq<char>, JsonV)>) -> Seq<SpelledMember>
    decreases kvs,
{
    if kvs.len() == 0 {
        Seq::empty()
    } else {
        seq![
            SpelledMember {
                before: Seq::empty(),
                key: kvs[0].0,
                between: Seq::empty(),
                gap: Seq::empty(),
                value: compact(kvs[0].1),
                after: Seq::empty(),
            },
        ] + compact_members(kvs.subrange(1, kvs.len() as int))
    }
}

/// Whether every number in a value is a run of the characters that numbers are made
/// of.
pub open spec fn numbered(v: JsonV) -> bool
    decreases v,
{
    match v {
        JsonV::Num(s) => is_number(encode_utf8(s)),
        JsonV::Array(vs) => numbered_items(vs),
        JsonV::Object(kvs) => numbered_members(kvs),
        _ => true,
    }
}

pub open spec fn numbered_items(vs: Seq<JsonV>) -> bool
    decreases vs,
{
    vs.len() > 0 ==> numbered(vs[0]) && numbered_items(vs.subrange(1, vs.len() as int))
}

pub open spec fn numbered_members(kvs: Seq<(Seq<char>, JsonV)>) -> bool
    decreases kvs,
{
    kvs.len() > 0 ==> numbered(kvs[0].1) && numbered_members(kvs.subrange(1, kvs.len() as int))
}

proof fn lemma_compact(v: JsonV)
    requires
        numbered(v),
    ensures
        proper(compact(v)),
        meaning(compact(v)) == v,
    decreases v,
{
    match v {
        JsonV::Num(s) => {
            let t = encode_utf8(s);
            assert forall|k: int| 0 <= k < t.len() implies #[trigger] t[k] < 128 by {
                assert(crate::json::is_num_byte(t[k]));
            }
            crate::text::lemma_ascii_text(t);
            encode_utf8_decode_utf8(s);
        },
        JsonV::Array(vs) => {
            lemma_compact_items(vs);
        },
        JsonV::Object(kvs) => {
            lemma_compact_members(kvs);
        },
        _ => {},
    }
}

proof fn lemma_compact_items(vs: Seq<JsonV>)
    requires
        numbered_items(vs),
    ensures
        proper_items(compact_items(vs)),
        items_meaning(compact_items(vs)) == vs,
    decreases vs,
{
    if vs.len() > 0 {
        let rest = vs.subrange(1, vs.len() as int);
        lemma_compact(vs[0]);
        lemma_compact_items(rest);
        let all = compact_items(vs);
        assert(all.subrange(1, all.len() as int) =~= compact_items(rest));
        assert(seq![vs[0]] + rest =~= vs);
    } else {
        assert(vs =~= Seq::<JsonV>::empty());
    }
}

proof fn lemma_compact_members(kvs: Seq<(Seq<char>, JsonV)>)
    requires
        numbered_members(kvs),
    ensures
        proper_members(compact_members(kvs)),
        members_meaning(compact_members(kvs)) == kvs,
    decreases kvs,
{
    if kvs.len() > 0 {
        let rest = kvs.subrange(1, kvs.len() as int);
        lemma_compact(kvs[0].1);
        lemma_compact_members(rest);
        let all = compact_members(kvs);
        assert(all.subrange(1, all.len() as int) =~= compact_members(rest));
        assert(seq![kvs[0]] + rest =~= kvs);
    } else {
        assert(kvs =~= Seq::<(Seq<char>, JsonV)>::empty());
    }
}

/// Every value comes back from the text that it is written down as.
pub proof fn law_value_comes_back(v: JsonV)
    requires
        numbered(v),
    ensures
        crate::json::value_at(text(compact(v)), 0) == Some((v, text(compact(v)).len() as int)),
{
    let nothing = Seq::<u8>::empty();
    lemma_compact(v);
    law_document_comes_back(nothing, compact(v), nothing);
    assert(nothing + text(compact(v)) + nothing =~= text(compact(v)));
}

/// Whether a text holds another one, `d` bytes further on.
pub open spec fn holds(c: Seq<u8>, b: Seq<u8>, d: int) -> bool {
    &&& 0 <= d
    &&& d + b.len() <= c.len()
    &&& forall|k: int| 0 <= k < b.len() ==> #[trigger] b[k] == c[k + d]
}

proof fn lemma_ws_moved(b: Seq<u8>, c: Seq<u8>, d: int, i: int)
    requires
        holds(c, b, d),
        0 <= i,
        crate::json::ws_end(b, i) < b.len(),
    ensures
        crate::json::ws_end(c, i + d) == crate::json::ws_end(b, i) + d,
    decreases b.len() - i,
{
    crate::json::lemma_ws_end(b, i);
    assert(b[i] == c[i + d]);
    if crate::json::is_ws(b[i]) {
        lemma_ws_moved(b, c, d, i + 1);
    }
}

proof fn lemma_num_moved(b: Seq<u8>, c: Seq<u8>, d: int, i: int)
    requires
        holds(c, b, d),
        0 <= i,
        crate::json::num_end(b, i) < b.len(),
    ensures
        crate::json::num_end(c, i + d) == crate::json::num_end(b, i) + d,
    decreases b.len() - i,
{
    crate::json::lemma_num_end(b, i);
    assert(b[i] == c[i + d]);
    if crate::json::is_num_byte(b[i]) {
        lemma_num_moved(b, c, d, i + 1);
    }
}

proof fn lemma_body_moved(b: Seq<u8>, c: Seq<u8>, d: int, i: int)
    requires
        holds(c, b, d),
        crate::json::str_body(b, i) is Some,
    ensures
        crate::json::str_body(c, i + d) == Some(
            (crate::json::str_body(b, i).unwrap().0, crate::json::str_body(b, i).unwrap().1 + d),
        ),
    decreases b.len() - i,
{
    assert(b[i] == c[i + d]);
    if b[i] != QUOTE {
        if b[i] == BACKSLASH {
            assert(b[i + 1] == c[i + 1 + d]);
            lemma_body_moved(b, c, d, i + 2);
        } else {
            lemma_body_moved(b, c, d, i + 1);
        }
    }
}

proof fn lemma_string_moved(b: Seq<u8>, c: Seq<u8>, d: int, i: int)
    requires
        holds(c, b, d),
        crate::json::string_at(b, i) is Some,
    ensures
        crate::json::string_at(c, i + d) == Some(
            (crate::json::string_at(b, i).unwrap().0, crate::json::string_at(b, i).unwrap().1 + d),
        ),
{
    assert(b[i] == c[i + d]);
    lemma_body_moved(b, c, d, i + 1);
}

proof fn lemma_comma_moved(b: Seq<u8>, c: Seq<u8>, d: int, i: int)
    requires
        holds(c, b, d),
        0 <= i,
        crate::json::comma_end(b, i) is Some,
    ensures
        crate::json::comma_end(c, i + d) == Some(crate::json::comma_end(b, i)->0 + d),
        i < b.len(),
{
    let j = crate::json::ws_end(b, i);
    crate::json::lemma_ws_end(b, i);
    lemma_ws_moved(b, c, d, i);
    assert(b[j] == c[j + d]);
}

/// Whether a byte opens a value that ends by itself.
pub open spec fn opens(c: u8) -> bool {
    c == OPEN_BRACE || c == OPEN_BRACKET || c == QUOTE
}

/// A value that ends before the text does, or by itself, is the same value in a text
/// that holds that text.
proof fn lemma_value_moved(b: Seq<u8>, c: Seq<u8>, d: int, i: int)
    requires
        holds(c, b, d),
        crate::json::value_at(b, i) is Some,
        crate::json::value_at(b, i).unwrap().1 < b.len() || opens(b[crate::json::ws_end(b, i)]),
    ensures
        crate::json::value_at(c, i + d) == Some(
            (crate::json::value_at(b, i).unwrap().0, crate::json::value_at(b, i).unwrap().1 + d),
        ),
    decreases b.len() - i, 1nat,
{
    let j = crate::json::ws_end(b, i);
    crate::json::lemma_ws_end(b, i);
    lemma_ws_moved(b, c, d, i);
    assert(b[j] == c[j + d]);
    if b[j] == OPEN_BRACE {
        lemma_members_moved(b, c, d, j + 1);
    } else if b[j] == OPEN_BRACKET {
        lemma_items_moved(b, c, d, j + 1);
    } else if b[j] == QUOTE {
        lemma_string_moved(b, c, d, j);
    } else if b[j] == LOWER_T || b[j] == LOWER_F || b[j] == LOWER_N {
    } else {
        let e = crate::json::num_end(b, j);
        crate::json::lemma_num_end(b, j);
        lemma_num_moved(b, c, d, j);
        assert(b.subrange(j, e) =~= c.subrange(j + d, e + d));
    }
}

proof fn lemma_members_moved(b: Seq<u8>, c: Seq<u8>, d: int, i: int)
    requires
        holds(c, b, d),
        crate::json::members_at(b, i) is Some,
    ensures
        crate::json::members_at(c, i + d) == Some(
            (crate::json::members_at(b, i).unwrap().0, crate::json::members_at(b, i).unwrap().1 + d),
        ),
    decreases b.len() - i, 0nat,
{
    let j = crate::json::ws_end(b, i);
    crate::json::lemma_ws_end(b, i);
    lemma_ws_moved(b, c, d, i);
    assert(b[j] == c[j + d]);
    if b[j] != CLOSE_BRACE {
        crate::json::lemma_string_at(b, j);
        lemma_string_moved(b, c, d, j);
        let ke = crate::json::string_at(b, j).unwrap().1;
        let p = crate::json::ws_end(b, ke);
        crate::json::lemma_ws_end(b, ke);
        lemma_ws_moved(b, c, d, ke);
        assert(b[p] == c[p + d]);
        let ve = crate::json::value_at(b, p + 1).unwrap().1;
        crate::json::lemma_value_at(b, p + 1);
        crate::json::lemma_ws_end(b, p + 1);
        lemma_comma_moved(b, c, d, ve);
        lemma_value_moved(b, c, d, p + 1);
        lemma_members_moved(b, c, d, crate::json::comma_end(b, ve)->0);
    }
}

proof fn lemma_items_moved(b: Seq<u8>, c: Seq<u8>, d: int, i: int)
    requires
        holds(c, b, d),
        crate::json::items_at(b, i) is Some,
    ensures
        crate::json::items_at(c, i + d) == Some(
            (crate::json::items_at(b, i).unwrap().0, crate::json::items_at(b, i).unwrap().1 + d),
        ),
    decreases b.len() - i, 2nat,
{
    let j = crate::json::ws_end(b, i);
    crate::json::lemma_ws_end(b, i);
    lemma_ws_moved(b, c, d, i);
    assert(b[j] == c[j + d]);
    if b[j] != CLOSE_BRACKET {
        let ve = crate::json::value_at(b, j).unwrap().1;
        crate::json::lemma_value_at(b, j);
        lemma_comma_moved(b, c, d, ve);
        lemma_value_moved(b, c, d, j);
        lemma_items_moved(b, c, d, crate::json::comma_end(b, ve)->0);
    }
}

proof fn lemma_encode_concat(a: Seq<char>, b: Seq<char>)
    ensures
        encode_utf8(a + b) == encode_utf8(a) + encode_utf8(b),
    decreases a.len(),
{
    if a.len() == 0 {
        assert(a + b =~= b);
        assert(encode_utf8(a) + encode_utf8(b) =~= encode_utf8(b));
    } else {
        assert((a + b).drop_first() =~= a.drop_first() + b);
        lemma_encode_concat(a.drop_first(), b);
        assert(encode_utf8(a + b) =~= encode_utf8(a) + encode_utf8(b));
    }
}

/// Whether a byte begins a value other than a number.
pub open spec fn begins(c: u8) -> bool {
    opens(c) || c == LOWER_T || c == LOWER_F || c == LOWER_N
}

/// White space before a text and anything at all after it change nothing about the
/// value that it begins with, unless that is a number.
pub proof fn law_surroundings_change_nothing(w: Seq<char>, s: Seq<char>, t: Seq<char>)
    requires
        is_gap(encode_utf8(w)),
        crate::json::spec_parse(s) is Some,
        begins(encode_utf8(s)[crate::json::ws_end(encode_utf8(s), 0)]),
    ensures
        crate::json::spec_parse(w + s + t) == crate::json::spec_parse(s),
{
    let b = encode_utf8(s);
    let c = encode_utf8(w + s + t);
    let d = encode_utf8(w).len() as int;
    lemma_encode_concat(w + s, t);
    lemma_encode_concat(w, s);
    assert forall|k: int| 0 <= k < b.len() implies #[trigger] b[k] == c[k + d] by {}
    let j = crate::json::ws_end(b, 0);
    crate::json::lemma_ws_end(b, 0);
    assert forall|k: int| 0 <= k < d implies crate::json::is_ws(#[trigger] c[k]) by {
        assert(c[k] == encode_utf8(w)[k]);
    }
    lemma_ws_run(c, 0, d);
    lemma_ws_moved(b, c, d, 0);
    crate::json::law_leading_white_space(c, 0);
    crate::json::law_leading_white_space(c, d);
    assert(b[j] == c[j + d]);
    if opens(b[j]) {
        lemma_value_moved(b, c, d, 0);
    }
}

} // verus!
