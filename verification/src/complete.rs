//! Where reading raw JSON as a type comes to something: on every text that writes a
//! value of the type down, as far as there is memory for it, as
//! [`law_read_completes`] says; and where binding the document to the type does, as
//! [`law_bind_completes`] says.
use crate::ascii::{CLOSE_BRACE, CLOSE_BRACKET, LOWER_N};
use crate::interp::{Block, Scope};
use crate::json::JsonV;
use crate::plan::{FieldV, SeqLayout, TyV};
use vstd::prelude::*;

verus! {

/// The larger of two depths.
pub open spec fn deeper(a: Option<nat>, b: Option<nat>) -> Option<nat> {
    match (a, b) {
        (Some(x), Some(y)) => Some(
            if x < y {
                y
            } else {
                x
            },
        ),
        _ => None,
    }
}

/// How many types that contain themselves a value of a type is nested in; nothing
/// where there is a block that cannot be allocated.
pub open spec fn depth(ty: TyV, env: Scope, limit: nat, v: JsonV) -> Option<nat>
    decreases v, limit, ty, 0nat,
{
    match ty {
        TyV::Struct { name, fields } => depth_fields(fields, 0, env, v),
        TyV::Tuple { fields } => match v {
            JsonV::Array(items) => depth_tuple(fields, 0, env, items),
            _ => Some(0),
        },
        TyV::Vec { elem, elem_size, elem_align, seq } => match v {
            JsonV::Array(items) => {
                let align = if elem_align == 0 {
                    1
                } else {
                    elem_align
                };
                if !crate::interp::room_ok(items.len(), elem_size, align) {
                    None
                } else {
                    depth_items(*elem, 0, env, items)
                }
            },
            _ => Some(0),
        },
        TyV::Opt { disc_off, disc_size, none_discr, some_discr, payload_off, size, inner } => if v
            == JsonV::Null {
            Some(0)
        } else {
            depth(*inner, env, limit, v)
        },
        TyV::Boxed { inner, size, align } => if !crate::interp::layout_ok(size as int, align as int) {
            None
        } else {
            depth(*inner, env, limit, v)
        },
        TyV::BTreeMap { key, key_size, val, val_size, new_at, insert } => match v {
            JsonV::Object(kvs) => if !crate::interp::layout_ok(
                crate::read::room(key_size) as int,
                crate::read::SLOT_ALIGN as int,
            ) || !crate::interp::layout_ok(
                crate::read::room(val_size) as int,
                crate::read::SLOT_ALIGN as int,
            ) {
                None
            } else {
                depth_entries(*val, env, kvs)
            },
            _ => Some(0),
        },
        TyV::Rec { site, body } => match depth(*body, env.push((site, *body)), limit, v) {
            Some(n) => Some(n + 1),
            None => None,
        },
        TyV::Ref(site) => match crate::interp::find_site(env, env.len(), site) {
            None => None,
            Some(i) => if i < limit {
                match depth(env[i as int].1, env.take((i + 1) as int), i, v) {
                    Some(n) => Some(n + 1),
                    None => None,
                }
            } else {
                None
            },
        },
        _ => Some(0),
    }
}

/// The depth of the members for the fields from the `k`th on.
pub open spec fn depth_fields(fields: Seq<FieldV>, k: nat, env: Scope, v: JsonV) -> Option<nat>
    decreases v, 0nat, fields, fields.len() - k,
{
    if k >= fields.len() {
        Some(0)
    } else {
        let f = fields[k as int];
        deeper(
            match crate::json::get_of(v, f.name) {
                Some(sub) => {
                    proof {
                        crate::json::lemma_get_of(v, f.name);
                    }
                    depth(f.ty, env, env.len(), sub)
                },
                None => Some(0),
            },
            depth_fields(fields, k + 1, env, v),
        )
    }
}

/// The depth of the items for a tuple's fields from the `k`th on.
pub open spec fn depth_tuple(fields: Seq<FieldV>, k: nat, env: Scope, items: Seq<JsonV>) -> Option<nat>
    decreases items, 0nat, fields, fields.len() - k,
{
    if k >= fields.len() || k >= items.len() {
        Some(0)
    } else {
        deeper(
            depth(fields[k as int].ty, env, env.len(), items[k as int]),
            depth_tuple(fields, k + 1, env, items),
        )
    }
}

/// The depth of the items from the `k`th on.
pub open spec fn depth_items(elem: TyV, k: nat, env: Scope, items: Seq<JsonV>) -> Option<nat>
    decreases items, 0nat, elem, items.len() - k,
{
    if k >= items.len() {
        Some(0)
    } else {
        deeper(depth(elem, env, env.len(), items[k as int]), depth_items(elem, k + 1, env, items))
    }
}

/// The depth of the values of members.
pub open spec fn depth_entries(val: TyV, env: Scope, kvs: Seq<(Seq<char>, JsonV)>) -> Option<nat>
    decreases kvs, 0nat, val, 0nat,
{
    if kvs.len() == 0 {
        Some(0)
    } else {
        proof {
            assert(decreases_to!(kvs => kvs[0]));
            assert(decreases_to!(kvs[0] => kvs[0].1));
        }
        deeper(depth(val, env, env.len(), kvs[0].1), depth_entries(val, env, kvs.drop_first()))
    }
}

/// Whether something is there and no more than a bound.
pub open spec fn at_most(a: Option<nat>, n: nat) -> bool {
    a matches Some(x) && x <= n
}

/// What is asked where a value is to be read.
pub open spec fn all_set(n: nat, ty: TyV, env: Scope, limit: nat, d: Seq<u8>, c: int, off: u64) -> bool {
    &&& crate::bounds::well_laid(ty, env, false)
    &&& off + crate::memory::span(ty, env, env.len())->0 <= u64::MAX
    &&& 0 <= c
    &&& d.len() <= u64::MAX
    &&& crate::written::plain_value(d, c)
    &&& crate::reading::verbatim(ty, env, limit, d, c)
    &&& crate::json::value_at(d, c) matches Some((v, e)) && crate::reading::suits(ty, env, limit, v)
        && at_most(depth(ty, env, limit, v), n)
}

/// The discriminant of an `Option` lies in it.
proof fn lemma_disc_inside(ty: TyV, env: Scope, limit: nat)
    requires
        crate::memory::scope_ok(env),
        crate::memory::no_overlap(ty, env),
        crate::memory::span(ty, env, env.len()) is Some,
        crate::read::as_option(ty, env, limit) is Some,
    ensures
        crate::read::as_option(ty, env, limit).unwrap().0 <= crate::memory::span(ty, env, env.len())->0,
    decreases limit, ty,
{
    match ty {
        TyV::Rec { site, body } => {
            crate::memory::lemma_scope_push(env, site, *body);
            crate::memory::lemma_span_more(*body, env.push((site, *body)), env.len(), env.len() + 1);
            lemma_disc_inside(*body, env.push((site, *body)), limit);
        },
        TyV::Ref(site) => {
            let i = crate::interp::find_site(env, env.len(), site)->0;
            crate::interp::lemma_find_site(env, env.len(), site);
            crate::memory::lemma_scope_take(env, i as int);
            lemma_disc_inside(env[i as int].1, env.take((i + 1) as int), i);
        },
        _ => {},
    }
}

/// What is asked of a struct's fields, at an offset.
pub open spec fn fields_set(fields: Seq<FieldV>, env: Scope, off: u64) -> bool {
    &&& crate::memory::scope_ok(env)
    &&& crate::bounds::roomy_scope(env, false)
    &&& crate::memory::fields_apart(fields, fields.len(), env)
    &&& crate::memory::span_fields(fields, fields.len(), env, env.len()) matches Some(n) && off + n <= u64::MAX
    &&& crate::bounds::roomy_fields(fields, fields.len(), env, false)
}

proof fn lemma_none_fields(fields: Seq<FieldV>, k: nat, env: Scope, block: Block, off: u64)
    requires
        fields_set(fields, env, off),
    ensures
        crate::read::none_fields(fields, k, env, block, off) is Some,
    decreases fields.len() - k,
{
    if k < fields.len() {
        lemma_none_fields(fields, k + 1, env, block, off);
        let f = fields[k as int];
        crate::bounds::lemma_field(fields, env, k as int, false);
        if crate::read::as_option(f.ty, env, env.len()) is Some {
            lemma_disc_inside(f.ty, env, env.len());
        }
    }
}

/// The depth of a struct is no less than that of its members.
proof fn lemma_depth_field(fields: Seq<FieldV>, k: nat, env: Scope, v: JsonV, j: int, n: nat)
    requires
        at_most(depth_fields(fields, k, env, v), n),
        k <= j < fields.len(),
    ensures
        crate::json::get_of(v, fields[j].name) matches Some(sub) ==> at_most(
            depth(fields[j].ty, env, env.len(), sub),
            n,
        ),
    decreases fields.len() - k,
{
    if k < j {
        lemma_depth_field(fields, k + 1, env, v, j, n);
    }
}

/// Whether each member is no deeper than a bound.
pub open spec fn members_reach(fields: Seq<FieldV>, env: Scope, kvs: Seq<(Seq<char>, JsonV)>, n: nat) -> bool {
    forall|k: int, m: int|
        0 <= k < fields.len() && 0 <= m < kvs.len() && (#[trigger] kvs[m]).0 == (
        #[trigger] fields[k]).name ==> at_most(depth(fields[k].ty, env, env.len(), kvs[m].1), n)
}

proof fn lemma_members_reach(fields: Seq<FieldV>, env: Scope, kvs: Seq<(Seq<char>, JsonV)>, n: nat)
    requires
        at_most(depth_fields(fields, 0, env, JsonV::Object(kvs)), n),
        crate::reading::once(fields, kvs),
    ensures
        members_reach(fields, env, kvs, n),
{
    assert forall|k: int, m: int|
        0 <= k < fields.len() && 0 <= m < kvs.len() && (#[trigger] kvs[m]).0 == (
        #[trigger] fields[k]).name implies at_most(depth(fields[k].ty, env, env.len(), kvs[m].1), n) by {
        lemma_depth_field(fields, 0, env, JsonV::Object(kvs), k, n);
        crate::reading::lemma_found(kvs, fields[k].name, 0);
        let a = crate::json::member_index(kvs, fields[k].name, 0)->0;
        assert(kvs[a].0 == fields[k].name);
        assert(kvs[m].0 == fields[k].name);
    }
}

#[verifier::spinoff_prover]
#[verifier::rlimit(60)]
proof fn lemma_read(
    n: nat,
    ty: TyV,
    env: Scope,
    limit: nat,
    d: Seq<u8>,
    c: int,
    block: Block,
    off: u64,
    base: nat,
)
    requires
        all_set(n, ty, env, limit, d, c, off),
    ensures
        crate::read::read(n, ty, env, d, c, block, off, base) matches Some((ops, end)) && end
            == crate::json::value_at(d, c).unwrap().1,
    decreases n, ty, 0int,
{
    let (v, e) = crate::json::value_at(d, c)->0;
    crate::written::lemma_start(d, c);
    let j = crate::json::ws_end(d, c);
    match ty {
        TyV::Bool => {},
        TyV::Char => {
            crate::reading::lemma_between(d, c);
            vstd::utf8::encode_utf8_valid_utf8(v->Str_0);
        },
        TyV::U(w) => crate::reading::lemma_unsigned(d, c, false),
        TyV::I(w) => {
            let s = v->Num_0;
            if s.len() > 0 && s[0] == '-' {
                crate::reading::lemma_negative(d, c);
            } else {
                crate::reading::lemma_unsigned(d, c, true);
            }
        },
        TyV::F32 => crate::reading::lemma_num_stops(d, j),
        TyV::F64 => crate::reading::lemma_num_stops(d, j),
        TyV::Unit => crate::written::lemma_end(d, c),
        TyV::Struct { name, fields } => {
            let kvs = v->Object_0;
            lemma_none_fields(fields, 0, env, block, off);
            let pre = crate::read::none_fields(fields, 0, env, block, off)->0;
            crate::reading::lemma_suits_members(fields, env, kvs);
            lemma_members_reach(fields, env, kvs, n);
            lemma_read_members(n, fields, env, d, j + 1, kvs, block, off, base + pre.len());
        },
        TyV::Tuple { fields } => {
            crate::written::lemma_end(d, c);
            let items = v->Array_0;
            assert(items.skip(0) =~= items);
            lemma_read_tuple(n, fields, 0, env, d, j + 1, items, block, off, base);
        },
        TyV::Str(seq) => {
            crate::reading::lemma_between(d, c);
        },
        TyV::StrRef { ptr_off, len_off } => {
            crate::reading::lemma_between(d, c);
        },
        TyV::Vec { elem, elem_size, elem_align, seq } => {
            let items = v->Array_0;
            assert(items.skip(0) =~= items);
            crate::written::lemma_counted(d, j + 1);
            let align = if elem_align == 0 {
                1
            } else {
                elem_align
            };
            let size = items.len() * elem_size;
            lemma_read_items(
                n,
                *elem,
                0,
                env,
                d,
                j + 1,
                items,
                elem_size,
                crate::interp::home(size, align, base),
                base + crate::interp::home_ops(size, align).len(),
            );
            lemma_count(d, j + 1);
        },
        TyV::Opt { disc_off, disc_size, none_discr, some_discr, payload_off, size, inner } => {
            crate::memory::lemma_span_more(*inner, env, env.len(), env.len());
            if d[j] != LOWER_N {
                let p = (off + payload_off) as u64;
                lemma_read(n, *inner, env, limit, d, j, block, p, base);
            }
        },
        TyV::Boxed { inner, size, align } => {
            let heap = crate::interp::home(size as int, align, base);
            let start = base + crate::interp::home_ops(size as int, align).len();
            lemma_read(n, *inner, env, limit, d, c, heap, 0, start);
        },
        TyV::Rec { site, body } => {
            crate::bounds::lemma_enter(ty, env, false);
            lemma_read((n - 1) as nat, *body, env.push((site, *body)), limit, d, c, block, off, base);
        },
        TyV::Ref(site) => {
            let i = crate::interp::find_site(env, env.len(), site)->0;
            crate::interp::lemma_find_site(env, env.len(), site);
            crate::bounds::lemma_return(env, i as int, false);
            lemma_read(
                (n - 1) as nat,
                env[i as int].1,
                env.take((i + 1) as int),
                i,
                d,
                c,
                block,
                off,
                base,
            );
        },
        TyV::BTreeMap { key, key_size, val, val_size, new_at, insert } => {
            let seq = (*key)->Str_0;
            let kvs = v->Object_0;
            lemma_read_entries(
                n,
                seq,
                key_size,
                *val,
                val_size,
                insert,
                env,
                d,
                j + 1,
                kvs,
                block,
                off,
                base + 1,
            );
        },
        TyV::Unknown(what) => {},
    }
}

#[verifier::spinoff_prover]
#[verifier::rlimit(40)]
proof fn lemma_read_entries(
    n: nat,
    seq: SeqLayout,
    key_size: u64,
    val: TyV,
    val_size: u64,
    insert: u64,
    env: Scope,
    d: Seq<u8>,
    c: int,
    kvs: Seq<(Seq<char>, JsonV)>,
    block: Block,
    off: u64,
    base: nat,
)
    requires
        crate::bounds::well_laid(val, env, false),
        crate::memory::span(val, env, env.len())->0 <= crate::read::room(val_size),
        crate::memory::span_words(seq) <= crate::read::room(key_size),
        crate::interp::layout_ok(
            crate::read::room(key_size) as int,
            crate::read::SLOT_ALIGN as int,
        ),
        crate::interp::layout_ok(
            crate::read::room(val_size) as int,
            crate::read::SLOT_ALIGN as int,
        ),
        0 <= c,
        d.len() <= u64::MAX,
        crate::written::plain_members(d, c),
        crate::json::members_at(d, c) matches Some((ms, e)) && ms == kvs,
        crate::reading::suits_entries(val, env, kvs),
        crate::reading::verbatim_entries(val, env, d, c),
        at_most(depth_entries(val, env, kvs), n),
    ensures
        crate::read::read_entries(
            n,
            seq,
            key_size,
            val,
            val_size,
            insert,
            env,
            d,
            c,
            block,
            off,
            base,
        ) matches Some((ops, end)) && end == crate::json::members_at(d, c).unwrap().1,
    decreases n, val, d.len() + 4 - c,
{
    crate::written::lemma_spaced(d, c);
    crate::json::lemma_ws_end(d, c);
    let j = crate::json::ws_end(d, c);
    if d[j] != CLOSE_BRACE {
        let (key, ke) = crate::json::string_at(d, j)->0;
        crate::json::lemma_string_at(d, j);
        let q = crate::json::ws_end(d, ke);
        crate::json::lemma_ws_end(d, ke);
        let (v, ve) = crate::json::value_at(d, q + 1)->0;
        crate::json::lemma_value_at(d, q + 1);
        crate::json::lemma_ws_end(d, q + 1);
        crate::written::lemma_spaced(d, ke);
        crate::written::lemma_spaced(d, ve);
        crate::json::lemma_ws_end(d, ve);
        let next = crate::json::comma_end(d, ve)->0;
        let more = crate::json::members_at(d, next).unwrap().0;
        assert(kvs == seq![(key, v)] + more);
        assert(kvs[0] == (key, v));
        assert(kvs.drop_first() =~= more);
        assert(crate::scan::space_end(d, j) == j);
        crate::reading::lemma_between(d, j);
        let words = crate::read::read_str(seq, d, j, Block::Heap(base as usize), 0, base + 1);
        assert(words is Some);
        let slot = base + 1 + words.unwrap().0.len();
        lemma_read(
            n,
            val,
            env,
            env.len(),
            d,
            q + 1,
            Block::Heap(slot as usize),
            0,
            slot + 1,
        );
        let first = crate::read::read_entry(
            n,
            seq,
            key_size,
            val,
            val_size,
            insert,
            env,
            d,
            j,
            block,
            off,
            base,
        ).unwrap().0;
        lemma_read_entries(
            n,
            seq,
            key_size,
            val,
            val_size,
            insert,
            env,
            d,
            next,
            more,
            block,
            off,
            base + first.len(),
        );
    }
}

/// There are no more items than bytes.
proof fn lemma_count(d: Seq<u8>, c: int)
    requires
        0 <= c <= d.len(),
    ensures
        crate::read::count(d, c) matches Some(k) ==> k <= d.len() - c,
    decreases d.len() + 2 - c,
{
    let h = crate::scan::space_end(d, c);
    if c <= h < d.len() && d[h] != CLOSE_BRACKET {
        if let Some(next) = crate::read::comma_end(d, crate::scan::value_end(d, h)) {
            if next > c && next <= d.len() {
                lemma_count(d, next);
            }
        }
    }
}

#[verifier::spinoff_prover]
proof fn lemma_read_items(
    n: nat,
    elem: TyV,
    i: nat,
    env: Scope,
    d: Seq<u8>,
    c: int,
    items: Seq<JsonV>,
    elem_size: u64,
    heap: Block,
    base: nat,
)
    requires
        crate::bounds::well_laid(elem, env, false),
        crate::memory::span(elem, env, env.len())->0 <= elem_size,
        i <= items.len(),
        items.len() * elem_size <= u64::MAX,
        0 <= c,
        d.len() <= u64::MAX,
        crate::written::plain_items(d, c),
        crate::json::items_at(d, c) matches Some((vs, e)) && vs == items.skip(i as int),
        crate::reading::suits_items(elem, i, env, items),
        crate::reading::verbatim_items(elem, env, d, c),
        at_most(depth_items(elem, i, env, items), n),
    ensures
        crate::read::read_items(n, elem, i, items.len(), env, d, c, elem_size, heap, base) matches Some(
            (ops, end),
        ) && crate::scan::space_end(d, end) + 1 == crate::json::items_at(d, c).unwrap().1,
    decreases n, elem, (items.len() - i) + 1,
{
    if i >= items.len() {
        crate::reading::lemma_closed(d, c);
    } else {
        let block = heap;
        let size = crate::memory::span(elem, env, env.len())->0;
        crate::memory::lemma_span_more(elem, env, env.len(), env.len());
        crate::bounds::lemma_item(i, items.len(), elem_size, size);
        let at = (i * elem_size) as u64;
        assert(d[crate::json::ws_end(d, c)] != CLOSE_BRACKET) by {
            assert(items.skip(i as int).len() > 0);
        }
        crate::reading::lemma_item(d, c, items, i);
        let j = crate::json::ws_end(d, c);
        let ve = crate::json::value_at(d, j).unwrap().1;
        let next = crate::json::comma_end(d, ve)->0;
        lemma_read(n, elem, env, env.len(), d, j, block, at, base);
        let first = crate::read::read(n, elem, env, d, j, block, at, base).unwrap().0;
        lemma_read_items(n, elem, i + 1, env, d, next, items, elem_size, heap, base + first.len());
    }
}

#[verifier::spinoff_prover]
proof fn lemma_read_tuple(
    n: nat,
    fields: Seq<FieldV>,
    k: nat,
    env: Scope,
    d: Seq<u8>,
    c: int,
    items: Seq<JsonV>,
    block: Block,
    off: u64,
    base: nat,
)
    requires
        fields_set(fields, env, off),
        k <= items.len(),
        0 <= c,
        d.len() <= u64::MAX,
        crate::written::plain_items(d, c),
        crate::json::items_at(d, c) matches Some((vs, e)) && vs == items.skip(k as int),
        crate::reading::suits_tuple(fields, k, env, items),
        crate::reading::verbatim_tuple(fields, k, env, d, c),
        at_most(depth_tuple(fields, k, env, items), n),
    ensures
        crate::read::read_tuple(n, fields, k, env, d, c, block, off, base) is Some,
    decreases n, fields, fields.len() - k,
{
    crate::written::lemma_spaced(d, c);
    crate::json::lemma_ws_end(d, c);
    let j = crate::json::ws_end(d, c);
    if k < fields.len() && d[j] != CLOSE_BRACKET {
        let f = fields[k as int];
        let at = (off + f.offset) as u64;
        crate::bounds::lemma_field(fields, env, k as int, false);
        crate::reading::lemma_item(d, c, items, k);
        let ve = crate::json::value_at(d, j).unwrap().1;
        let next = crate::json::comma_end(d, ve)->0;
        lemma_read(n, f.ty, env, env.len(), d, j, block, at, base);
        let first = crate::read::read(n, f.ty, env, d, j, block, at, base).unwrap().0;
        lemma_read_tuple(n, fields, k + 1, env, d, next, items, block, off, base + first.len());
    }
}

#[verifier::spinoff_prover]
#[verifier::rlimit(40)]
proof fn lemma_read_members(
    n: nat,
    fields: Seq<FieldV>,
    env: Scope,
    d: Seq<u8>,
    c: int,
    kvs: Seq<(Seq<char>, JsonV)>,
    block: Block,
    off: u64,
    base: nat,
)
    requires
        fields_set(fields, env, off),
        crate::reading::members_suit(fields, env, kvs),
        members_reach(fields, env, kvs, n),
        0 <= c,
        d.len() <= u64::MAX,
        crate::written::plain_members(d, c),
        crate::json::members_at(d, c) matches Some((ms, e)) && ms == kvs,
        crate::reading::verbatim_members(fields, env, d, c),
    ensures
        crate::read::read_members(n, fields, env, d, c, block, off, base) matches Some((ops, end)) && end
            == crate::json::members_at(d, c).unwrap().1,
    decreases n, fields, d.len() + 2 - c,
{
    crate::written::lemma_spaced(d, c);
    crate::json::lemma_ws_end(d, c);
    let j = crate::json::ws_end(d, c);
    if d[j] != CLOSE_BRACE {
        let (key, ke) = crate::json::string_at(d, j)->0;
        crate::json::lemma_string_at(d, j);
        let q = crate::json::ws_end(d, ke);
        crate::json::lemma_ws_end(d, ke);
        let (val, ve) = crate::json::value_at(d, q + 1)->0;
        crate::json::lemma_value_at(d, q + 1);
        crate::json::lemma_ws_end(d, q + 1);
        crate::written::lemma_spaced(d, ve);
        crate::json::lemma_ws_end(d, ve);
        let next = crate::json::comma_end(d, ve)->0;
        let more = crate::json::members_at(d, next).unwrap().0;
        assert(kvs == seq![(key, val)] + more);
        assert(kvs[0] == (key, val));
        assert forall|m: int| 0 <= m < more.len() implies #[trigger] more[m] == kvs[m + 1] by {}
        assert(crate::reading::members_suit(fields, env, more) && members_reach(fields, env, more, n)) by {
            assert forall|k: int, m: int|
                0 <= k < fields.len() && 0 <= m < more.len() && (#[trigger] more[m]).0 == (
                #[trigger] fields[k]).name implies crate::reading::suits(
                fields[k].ty,
                env,
                env.len(),
                more[m].1,
            ) && at_most(depth(fields[k].ty, env, env.len(), more[m].1), n) by {
                assert(kvs[m + 1].0 == fields[k].name);
            }
        }
        assert forall|k: int| 0 <= k < fields.len() && (#[trigger] fields[k]).name == key implies crate::reading::suits(
            fields[k].ty,
            env,
            env.len(),
            val,
        ) && at_most(depth(fields[k].ty, env, env.len(), val), n) && crate::reading::verbatim(
            fields[k].ty,
            env,
            env.len(),
            d,
            q + 1,
        ) by {
            assert(kvs[0].0 == fields[k].name);
        }
        lemma_read_member(n, fields, env, d, j, block, off, base);
        let first = crate::read::read_member(n, fields, env, d, j, block, off, base).unwrap().0;
        lemma_read_members(n, fields, env, d, next, more, block, off, base + first.len());
    }
}

#[verifier::spinoff_prover]
proof fn lemma_read_member(
    n: nat,
    fields: Seq<FieldV>,
    env: Scope,
    d: Seq<u8>,
    h: int,
    block: Block,
    off: u64,
    base: nat,
)
    requires
        fields_set(fields, env, off),
        0 <= h < d.len() <= u64::MAX,
        crate::written::unescaped(d, h + 1),
        crate::json::string_at(d, h) matches Some((key, ke)) && crate::written::spaced(d, ke) && ({
            let q = crate::json::ws_end(d, ke);
            &&& crate::written::plain_value(d, q + 1)
            &&& crate::json::value_at(d, q + 1) matches Some((val, ve)) && forall|k: int|
                0 <= k < fields.len() && (#[trigger] fields[k]).name == key ==> crate::reading::suits(
                    fields[k].ty,
                    env,
                    env.len(),
                    val,
                ) && at_most(depth(fields[k].ty, env, env.len(), val), n) && crate::reading::verbatim(
                    fields[k].ty,
                    env,
                    env.len(),
                    d,
                    q + 1,
                )
        }),
    ensures
        ({
            let ke = crate::json::string_at(d, h).unwrap().1;
            crate::read::read_member(n, fields, env, d, h, block, off, base) matches Some((ops, end)) && end
                == crate::json::value_at(d, crate::json::ws_end(d, ke) + 1).unwrap().1
        }),
    decreases n, fields, 0int,
{
    let (key, ke) = crate::json::string_at(d, h)->0;
    assert(crate::scan::space_end(d, h) == h);
    crate::reading::lemma_between(d, h);
    crate::json::lemma_string_at(d, h);
    crate::written::lemma_spaced(d, ke);
    crate::json::lemma_ws_end(d, ke);
    let at = crate::json::ws_end(d, ke) + 1;
    crate::written::lemma_start(d, at);
    let (first, quote) = crate::scan::span(d, h);
    let raw = d.subrange(first, quote);
    match crate::read::field_at(fields, 0, raw) {
        None => {
            crate::written::lemma_end(d, at);
        },
        Some(k) => {
            crate::reading::lemma_that_field(fields, 0, raw);
            let f = fields[k as int];
            crate::text::lemma_bytes_injective(f.name, key);
            crate::bounds::lemma_field(fields, env, k as int, false);
            let p = (off + f.offset) as u64;
            lemma_read(n, f.ty, env, env.len(), d, at, block, p, base);
        },
    }
}

/// Reading a text as a type comes to something, and goes on where the value ends,
/// where the text writes down a value of the type, without escapes in keys and in the
/// strings that are taken over and without form feeds as white space, and where all
/// blocks can be allocated. This of every type whose parts do not overlap, whose boxed
/// values fit in their blocks, and which contains itself, if at all, behind a pointer.
pub proof fn law_read_completes(n: nat, ty: TyV, d: Seq<u8>)
    requires
        crate::memory::no_overlap(ty, Seq::empty()),
        crate::memory::span(ty, Seq::empty(), 0) matches Some(size) && size <= u64::MAX,
        crate::bounds::roomy(ty, Seq::empty(), false),
        d.len() <= u64::MAX,
        crate::written::plain_value(d, 0),
        crate::reading::verbatim(ty, Seq::empty(), 0, d, 0),
        crate::json::value_at(d, 0) matches Some((v, e)) && crate::reading::suits(ty, Seq::empty(), 0, v)
            && at_most(depth(ty, Seq::empty(), 0, v), n),
    ensures
        crate::read::read(n, ty, Seq::empty(), d, 0, Block::Dest, 0, 0) matches Some((ops, end)) && end
            == crate::json::value_at(d, 0).unwrap().1,
{
    assert(crate::memory::scope_ok(Seq::empty()));
    assert(crate::bounds::roomy_scope(Seq::empty(), false));
    lemma_read(n, ty, Seq::empty(), 0, d, 0, Block::Dest, 0, 0);
}

// ---------------------------------------------------------------------------
// Binding a document.
// ---------------------------------------------------------------------------

/// Whether the interpreter lays values of a type out at all: there is no map in it, and
/// no discriminant of more than sixteen bytes.
pub open spec fn bindable(ty: TyV) -> bool
    decreases ty, 0nat,
{
    match ty {
        TyV::Struct { name, fields } => bindable_from(fields, 0),
        TyV::Tuple { fields } => bindable_from(fields, 0),
        TyV::Vec { elem, elem_size, elem_align, seq } => bindable(*elem),
        TyV::Opt { disc_off, disc_size, none_discr, some_discr, payload_off, size, inner } => disc_size <= 16
            && bindable(*inner),
        TyV::Boxed { inner, size, align } => bindable(*inner),
        TyV::Rec { site, body } => bindable(*body),
        TyV::BTreeMap { .. } => false,
        _ => true,
    }
}

/// Whether it lays values of the fields from the `k`th on out.
pub open spec fn bindable_from(fields: Seq<FieldV>, k: nat) -> bool
    decreases fields, fields.len() - k,
{
    k >= fields.len() || (bindable(fields[k as int].ty) && bindable_from(fields, k + 1))
}

/// Whether it lays values of the enclosing types out.
pub open spec fn bindable_scope(env: Scope) -> bool {
    forall|i: int| 0 <= i < env.len() ==> bindable((#[trigger] env[i]).1)
}

/// Whether strings and arrays in a document are no longer than numbers of eight bytes
/// tell.
pub open spec fn short(v: JsonV) -> bool
    decreases v,
{
    match v {
        JsonV::Str(s) => vstd::utf8::encode_utf8(s).len() <= u64::MAX,
        JsonV::Array(items) => items.len() <= u64::MAX && short_items(items),
        JsonV::Object(kvs) => short_members(kvs),
        _ => true,
    }
}

/// The same of items.
pub open spec fn short_items(items: Seq<JsonV>) -> bool
    decreases items,
{
    items.len() == 0 || (short(items[0]) && short_items(items.drop_first()))
}

/// The same of members.
pub open spec fn short_members(kvs: Seq<(Seq<char>, JsonV)>) -> bool
    decreases kvs,
{
    if kvs.len() == 0 {
        true
    } else {
        proof {
            assert(decreases_to!(kvs => kvs[0]));
            assert(decreases_to!(kvs[0] => kvs[0].1));
        }
        short(kvs[0].1) && short_members(kvs.drop_first())
    }
}

proof fn lemma_short_item(items: Seq<JsonV>, k: int)
    requires
        short_items(items),
        0 <= k < items.len(),
    ensures
        short(items[k]),
    decreases items.len(),
{
    if k > 0 {
        assert(items.drop_first()[k - 1] == items[k]);
        lemma_short_item(items.drop_first(), k - 1);
    }
}

proof fn lemma_short_member(kvs: Seq<(Seq<char>, JsonV)>, k: int)
    requires
        short_members(kvs),
        0 <= k < kvs.len(),
    ensures
        short(kvs[k].1),
    decreases kvs.len(),
{
    if k > 0 {
        assert(kvs.drop_first()[k - 1] == kvs[k]);
        lemma_short_member(kvs.drop_first(), k - 1);
    }
}

proof fn lemma_body_short(b: Seq<u8>, i: int)
    ensures
        crate::json::str_body(b, i) matches Some((bytes, e)) ==> bytes.len() <= b.len() - i,
    decreases b.len() - i,
{
    if 0 <= i < b.len() && b[i] != crate::ascii::QUOTE {
        if b[i] == crate::ascii::BACKSLASH {
            if i + 1 < b.len() {
                lemma_body_short(b, i + 2);
            }
        } else {
            lemma_body_short(b, i + 1);
        }
    }
}

/// What a text writes down is no longer than the text.
proof fn lemma_value_short(b: Seq<u8>, i: int)
    requires
        b.len() <= u64::MAX,
    ensures
        crate::json::value_at(b, i) matches Some((v, e)) ==> short(v),
    decreases b.len() - i, 1nat,
{
    crate::json::lemma_ws_end(b, i);
    let j = crate::json::ws_end(b, i);
    if i >= 0 && j < b.len() {
        if b[j] == crate::ascii::OPEN_BRACE {
            lemma_members_short(b, j + 1);
        } else if b[j] == crate::ascii::OPEN_BRACKET {
            lemma_items_short(b, j + 1);
        } else if b[j] == crate::ascii::QUOTE {
            lemma_body_short(b, j + 1);
            if let Some((bytes, e)) = crate::json::str_body(b, j + 1) {
                if vstd::utf8::valid_utf8(bytes) {
                    vstd::utf8::decode_utf8_encode_utf8(bytes);
                }
            }
        }
    }
}

proof fn lemma_members_short(b: Seq<u8>, i: int)
    requires
        b.len() <= u64::MAX,
    ensures
        crate::json::members_at(b, i) matches Some((kvs, e)) ==> short_members(kvs),
    decreases b.len() - i, 0nat,
{
    crate::json::lemma_ws_end(b, i);
    let j = crate::json::ws_end(b, i);
    if i >= 0 && j < b.len() && b[j] != crate::ascii::CLOSE_BRACE {
        crate::json::lemma_string_at(b, j);
        if let Some((key, ke)) = crate::json::string_at(b, j) {
            crate::json::lemma_ws_end(b, ke);
            let c = crate::json::ws_end(b, ke);
            if c < b.len() && b[c] == crate::ascii::COLON {
                if let Some((val, ve)) = crate::json::value_at(b, c + 1) {
                    lemma_value_short(b, c + 1);
                    if let Some(n) = crate::json::comma_end(b, ve) {
                        if n > i {
                            lemma_members_short(b, n);
                            if let Some((rest, e)) = crate::json::members_at(b, n) {
                                assert((seq![(key, val)] + rest).drop_first() =~= rest);
                            }
                        }
                    }
                }
            }
        }
    }
}

proof fn lemma_items_short(b: Seq<u8>, i: int)
    requires
        b.len() <= u64::MAX,
    ensures
        crate::json::items_at(b, i) matches Some((vs, e)) ==> short_items(vs) && vs.len() <= b.len() - i,
    decreases b.len() - i, 2nat,
{
    crate::json::lemma_ws_end(b, i);
    let j = crate::json::ws_end(b, i);
    if i >= 0 && j < b.len() && b[j] != CLOSE_BRACKET {
        if let Some((val, ve)) = crate::json::value_at(b, j) {
            lemma_value_short(b, j);
            if let Some(n) = crate::json::comma_end(b, ve) {
                if n > j {
                    lemma_items_short(b, n);
                    if let Some((rest, e)) = crate::json::items_at(b, n) {
                        assert((seq![val] + rest).drop_first() =~= rest);
                    }
                }
            }
        }
    }
}

/// What is asked where a document is to be laid out.
pub open spec fn all_laid(ty: TyV, env: Scope, limit: nat, v: JsonV, off: u64) -> bool {
    &&& crate::bounds::well_laid(ty, env, false)
    &&& off + crate::memory::span(ty, env, env.len())->0 <= u64::MAX
    &&& bindable(ty)
    &&& bindable_scope(env)
    &&& crate::reading::suits(ty, env, limit, v)
    &&& depth(ty, env, limit, v) is Some
    &&& short(v)
}

proof fn lemma_absent(ty: TyV, env: Scope, limit: nat, block: Block, off: u64)
    requires
        crate::read::as_option(ty, env, limit) matches Some(x) && off + x.0 <= u64::MAX,
    ensures
        crate::interp::absent(ty, env, limit, block, off) matches Some(r) && r is Ok,
    decreases limit, ty,
{
    match ty {
        TyV::Rec { site, body } => lemma_absent(*body, env.push((site, *body)), limit, block, off),
        TyV::Ref(site) => {
            let i = crate::interp::find_site(env, env.len(), site)->0;
            lemma_absent(env[i as int].1, env.take((i + 1) as int), i, block, off);
        },
        _ => {},
    }
}

proof fn lemma_bindable_field(fields: Seq<FieldV>, k: nat, j: int)
    requires
        bindable_from(fields, k),
        k <= j < fields.len(),
    ensures
        bindable(fields[j].ty),
    decreases fields.len() - k,
{
    if k < j {
        lemma_bindable_field(fields, k + 1, j);
    }
}

#[verifier::spinoff_prover]
#[verifier::rlimit(40)]
proof fn lemma_bind(ty: TyV, env: Scope, limit: nat, v: JsonV, block: Block, off: u64, base: nat)
    requires
        all_laid(ty, env, limit, v, off),
    ensures
        crate::interp::bind(ty, env, limit, v, block, off, base) is Ok,
    decreases v, limit, ty, 0nat,
{
    match ty {
        TyV::Struct { name, fields } => {
            lemma_bind_fields(name, fields, 0, env, v, block, off, base);
        },
        TyV::Tuple { fields } => {
            assert(decreases_to!(v => v->Array_0));
            lemma_bind_tuple(fields, 0, env, v->Array_0, block, off, base);
        },
        TyV::Vec { elem, elem_size, elem_align, seq } => {
            let items = v->Array_0;
            assert(decreases_to!(v => v->Array_0));
            let align = crate::memory::item_align(elem_align);
            let size = items.len() * elem_size;
            assert(0 <= size) by (nonlinear_arith)
                requires
                    size == items.len() * elem_size,
                    elem_size >= 0,
            ;
            lemma_bind_items(
                *elem,
                0,
                env,
                items,
                elem_size,
                crate::interp::home(size, align, base),
                base + crate::interp::home_ops(size, align).len(),
            );
        },
        TyV::Opt { disc_off, disc_size, none_discr, some_discr, payload_off, size, inner } => {
            crate::memory::lemma_span_more(*inner, env, env.len(), env.len());
            if v != JsonV::Null {
                lemma_bind(*inner, env, limit, v, block, (off + payload_off) as u64, base);
            }
        },
        TyV::Boxed { inner, size, align } => {
            let heap = crate::interp::home(size as int, align, base);
            let start = base + crate::interp::home_ops(size as int, align).len();
            lemma_bind(*inner, env, limit, v, heap, 0, start);
        },
        TyV::Rec { site, body } => {
            crate::bounds::lemma_enter(ty, env, false);
            let more = env.push((site, *body));
            assert forall|i: int| 0 <= i < more.len() implies bindable((#[trigger] more[i]).1) by {
                if i < env.len() {
                    assert(more[i] == env[i]);
                }
            }
            lemma_bind(*body, more, limit, v, block, off, base);
        },
        TyV::Ref(site) => {
            let i = crate::interp::find_site(env, env.len(), site)->0;
            crate::interp::lemma_find_site(env, env.len(), site);
            crate::bounds::lemma_return(env, i as int, false);
            let less = env.take((i + 1) as int);
            assert forall|j: int| 0 <= j < less.len() implies bindable((#[trigger] less[j]).1) by {
                assert(less[j] == env[j]);
            }
            lemma_bind(env[i as int].1, less, i, v, block, off, base);
        },
        _ => {},
    }
}

#[verifier::spinoff_prover]
proof fn lemma_bind_fields(
    name: Seq<char>,
    fields: Seq<FieldV>,
    k: nat,
    env: Scope,
    v: JsonV,
    block: Block,
    off: u64,
    base: nat,
)
    requires
        fields_set(fields, env, off),
        bindable_from(fields, 0),
        bindable_scope(env),
        crate::reading::suits_fields(fields, k, env, v),
        depth_fields(fields, k, env, v) is Some,
        short(v),
    ensures
        crate::interp::bind_fields(name, fields, k, env, v, block, off, base) is Ok,
    decreases v, 0nat, fields, fields.len() - k,
{
    if k < fields.len() {
        let f = fields[k as int];
        crate::bounds::lemma_field(fields, env, k as int, false);
        lemma_bindable_field(fields, 0, k as int);
        let at = (off + f.offset) as u64;
        let first = match crate::json::get_of(v, f.name) {
            Some(sub) => {
                crate::json::lemma_get_of(v, f.name);
                let kvs = v->Object_0;
                crate::json::lemma_member_index(kvs, f.name, 0);
                lemma_short_member(kvs, crate::json::member_index(kvs, f.name, 0)->0);
                lemma_bind(f.ty, env, env.len(), sub, block, at, base);
                crate::interp::bind(f.ty, env, env.len(), sub, block, at, base)->Ok_0
            },
            None => {
                lemma_disc_inside(f.ty, env, env.len());
                lemma_absent(f.ty, env, env.len(), block, at);
                crate::interp::absent(f.ty, env, env.len(), block, at)->0->Ok_0
            },
        };
        lemma_bind_fields(name, fields, k + 1, env, v, block, off, base + first.len());
    }
}

#[verifier::spinoff_prover]
proof fn lemma_bind_tuple(
    fields: Seq<FieldV>,
    k: nat,
    env: Scope,
    items: Seq<JsonV>,
    block: Block,
    off: u64,
    base: nat,
)
    requires
        fields_set(fields, env, off),
        bindable_from(fields, 0),
        bindable_scope(env),
        crate::reading::suits_tuple(fields, k, env, items),
        depth_tuple(fields, k, env, items) is Some,
        short_items(items),
    ensures
        crate::interp::bind_tuple(fields, k, env, items, block, off, base) is Ok,
    decreases items, 0nat, fields, fields.len() - k,
{
    if k < fields.len() && k < items.len() {
        let f = fields[k as int];
        crate::bounds::lemma_field(fields, env, k as int, false);
        lemma_bindable_field(fields, 0, k as int);
        lemma_short_item(items, k as int);
        assert(decreases_to!(items => items[k as int]));
        let at = (off + f.offset) as u64;
        lemma_bind(f.ty, env, env.len(), items[k as int], block, at, base);
        let first = crate::interp::bind(f.ty, env, env.len(), items[k as int], block, at, base)->Ok_0;
        lemma_bind_tuple(fields, k + 1, env, items, block, off, base + first.len());
    }
}

#[verifier::spinoff_prover]
proof fn lemma_bind_items(
    elem: TyV,
    k: nat,
    env: Scope,
    items: Seq<JsonV>,
    elem_size: u64,
    heap: Block,
    base: nat,
)
    requires
        crate::bounds::well_laid(elem, env, false),
        crate::memory::span(elem, env, env.len())->0 <= elem_size,
        items.len() * elem_size <= u64::MAX,
        bindable(elem),
        bindable_scope(env),
        crate::reading::suits_items(elem, k, env, items),
        depth_items(elem, k, env, items) is Some,
        short_items(items),
    ensures
        crate::interp::bind_items(elem, k, env, items, elem_size, heap, base) is Ok,
    decreases items, 0nat, elem, items.len() - k,
{
    if k < items.len() {
        let size = crate::memory::span(elem, env, env.len())->0;
        crate::memory::lemma_span_more(elem, env, env.len(), env.len());
        crate::bounds::lemma_item(k, items.len(), elem_size, size);
        lemma_short_item(items, k as int);
        assert(decreases_to!(items => items[k as int]));
        let at = (k * elem_size) as u64;
        lemma_bind(elem, env, env.len(), items[k as int], heap, at, base);
        let first = crate::interp::bind(elem, env, env.len(), items[k as int], heap, at, base)->Ok_0;
        lemma_bind_items(elem, k + 1, env, items, elem_size, heap, base + first.len());
    }
}

/// The interpreter lays the document that a text writes down out as a type, where it is
/// a value of the type and all blocks can be allocated: this of every type without
/// maps whose parts do not overlap, whose boxed values fit in their blocks, and which
/// contains itself, if at all, behind a pointer.
pub proof fn law_bind_completes(ty: TyV, d: Seq<u8>)
    requires
        crate::memory::no_overlap(ty, Seq::empty()),
        crate::memory::span(ty, Seq::empty(), 0) matches Some(size) && size <= u64::MAX,
        crate::bounds::roomy(ty, Seq::empty(), false),
        bindable(ty),
        d.len() <= u64::MAX,
        crate::json::value_at(d, 0) matches Some((v, e)) && crate::reading::suits(ty, Seq::empty(), 0, v)
            && depth(ty, Seq::empty(), 0, v) is Some,
    ensures
        crate::interp::bind(
            ty,
            Seq::empty(),
            0,
            crate::json::value_at(d, 0).unwrap().0,
            Block::Dest,
            0,
            0,
        ) is Ok,
{
    assert(crate::memory::scope_ok(Seq::empty()));
    assert(crate::bounds::roomy_scope(Seq::empty(), false));
    lemma_value_short(d, 0);
    lemma_bind(ty, Seq::empty(), 0, crate::json::value_at(d, 0).unwrap().0, Block::Dest, 0, 0);
}

} // verus!
