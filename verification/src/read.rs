//! What reading raw JSON as a type comes to: the writes that lay the value out,
//! and the position after it. Nothing is built in between; objects are matched
//! key by key, arrays are counted first, and strings are taken as they stand.
use crate::ascii::{
    CLOSE_BRACE, CLOSE_BRACKET, COMMA, LOWER_F, LOWER_N, LOWER_T,
};
use crate::interp::{Block, OpV};
use crate::plan::{FieldV, SeqLayout, TyV};
use vstd::prelude::*;
use vstd::utf8::*;

verus! {

/// The bytes between two positions; none where they reach past the end.
pub open spec fn span_bytes(d: Seq<u8>, first: int, quote: int) -> Option<Seq<u8>> {
    if quote == first {
        Some(Seq::empty())
    } else if 0 <= first < quote <= d.len() {
        Some(d.subrange(first, quote))
    } else {
        None
    }
}

/// Whether a discriminant can be stored in one go.
pub open spec fn disc_ok(size: u8) -> bool {
    size == 1 || size == 2 || size == 4 || size == 8
}

/// The write of a discriminant.
pub open spec fn disc_op(disc_off: usize, disc_size: u8, v: u128, block: Block, off: u64) -> Option<
    OpV,
> {
    match crate::interp::further(off, disc_off as int) {
        Some(at) => Some(
            crate::interp::put(block, at, crate::arith::le(v as nat, disc_size as nat)),
        ),
        None => None,
    }
}

/// Where a type is an `Option`: the place and size of its discriminant, and what
/// that is for `None`.
pub open spec fn as_option(ty: TyV, env: crate::interp::Scope, limit: nat) -> Option<
    (usize, u8, u128),
>
    decreases limit, ty,
{
    match ty {
        TyV::Opt { disc_off, disc_size, none_discr, some_discr, payload_off, size, inner } => if disc_ok(
            disc_size,
        ) && disc_off <= i32::MAX {
            Some((disc_off, disc_size, none_discr))
        } else {
            None
        },
        TyV::Rec { site, body } => as_option(*body, env.push((site, *body)), limit),
        TyV::Ref(site) => match crate::interp::find_site(env, env.len(), site) {
            Some(i) => if i < limit {
                as_option(env[i as int].1, env.take((i + 1) as int), i)
            } else {
                None
            },
            None => None,
        },
        _ => None,
    }
}

/// The writes that make `None` of every field from the `k`th on that is an
/// `Option`.
pub open spec fn none_fields(
    fields: Seq<FieldV>,
    k: nat,
    env: crate::interp::Scope,
    block: Block,
    off: u64,
) -> Option<Seq<OpV>>
    decreases fields.len() - k,
{
    if k >= fields.len() {
        Some(Seq::empty())
    } else {
        match as_option(fields[k as int].ty, env, env.len()) {
            None => none_fields(fields, k + 1, env, block, off),
            Some((disc_off, disc_size, v)) => match crate::interp::further(
                off,
                fields[k as int].offset as int,
            ) {
                None => None,
                Some(at) => match disc_op(disc_off, disc_size, v, block, at) {
                    None => None,
                    Some(op) => match none_fields(fields, k + 1, env, block, off) {
                        None => None,
                        Some(more) => Some(seq![op] + more),
                    },
                },
            },
        }
    }
}

/// The first field from the `k`th on whose name is that key.
pub open spec fn field_at(fields: Seq<FieldV>, k: nat, key: Seq<u8>) -> Option<nat>
    decreases fields.len() - k,
{
    if k >= fields.len() {
        None
    } else if encode_utf8(fields[k as int].name) == key {
        Some(k)
    } else {
        field_at(fields, k + 1, key)
    }
}

pub proof fn lemma_field_at(fields: Seq<FieldV>, k: nat, key: Seq<u8>)
    ensures
        field_at(fields, k, key) matches Some(i) ==> k <= i < fields.len(),
    decreases fields.len() - k,
{
    if k < fields.len() && encode_utf8(fields[k as int].name) != key {
        lemma_field_at(fields, k + 1, key);
    }
}

/// The position after white space and, where there is one, a comma.
pub open spec fn comma_end(d: Seq<u8>, c: int) -> Option<int> {
    let x = crate::scan::space_end(d, c);
    if !(0 <= x < d.len()) {
        None
    } else if d[x] == COMMA {
        Some(x + 1)
    } else {
        Some(x)
    }
}

/// How many items there are up to the bracket that closes an array.
pub open spec fn count(d: Seq<u8>, c: int) -> Option<nat>
    decreases d.len() + 2 - c,
{
    let h = crate::scan::space_end(d, c);
    if !(0 <= c && c <= h < d.len()) {
        None
    } else if d[h] == CLOSE_BRACKET {
        Some(0)
    } else {
        match comma_end(d, crate::scan::value_end(d, h)) {
            Some(next) => if next > c && next <= d.len() {
                match count(d, next) {
                    Some(k) => Some(k + 1),
                    None => None,
                }
            } else {
                None
            },
            None => None,
        }
    }
}

/// The first character of the text from `first` up to `quote`, or NUL where it has
/// none. Nothing where that is no text.
pub open spec fn char_at(d: Seq<u8>, first: int, quote: int) -> Option<char> {
    if 0 <= first <= quote <= d.len() && vstd::utf8::valid_utf8(d.subrange(first, quote)) {
        Some(crate::interp::first_char(vstd::utf8::decode_utf8(d.subrange(first, quote))))
    } else {
        None
    }
}

/// What reading a value of a type at a position comes to, where it goes on for
/// no more than `n` nested types that contain themselves: the writes, where
/// `base` come before them, and the position after the value. Nothing where the
/// input is not such a value.
pub open spec fn read(
    n: nat,
    ty: TyV,
    env: crate::interp::Scope,
    d: Seq<u8>,
    c: int,
    block: Block,
    off: u64,
    base: nat,
) -> Option<(Seq<OpV>, int)>
    decreases n, ty, 0int,
{
    match ty {
        TyV::Bool => {
            let p = crate::scan::space_end(d, c);
            if 0 <= p < d.len() {
                let x: nat = if d[p] == LOWER_T {
                    1
                } else {
                    0
                };
                let len = if d[p] == LOWER_F {
                    5int
                } else {
                    4int
                };
                Some((seq![crate::interp::put(block, off, crate::arith::le(x, 1))], p + len))
            } else {
                None
            }
        },
        TyV::U(w) => read_int(d, c, false, w, block, off),
        TyV::I(w) => read_int(d, c, true, w, block, off),
        TyV::F32 => read_float(d, c, 4, block, off),
        TyV::F64 => read_float(d, c, 8, block, off),
        TyV::Char => {
            let (first, quote) = crate::scan::span(d, c);
            match char_at(d, first, quote) {
                Some(x) => Some(
                    (seq![crate::interp::put(block, off, crate::arith::le(x as nat, 4))], quote + 1),
                ),
                None => None,
            }
        },
        TyV::Str(seq) => read_str(seq, d, c, block, off, base),
        TyV::StrRef { ptr_off, len_off } => {
            let (first, quote) = crate::scan::span(d, c);
            match (
                span_bytes(d, first, quote),
                crate::interp::further(off, ptr_off as int),
                crate::interp::further(off, len_off as int),
            ) {
                (Some(bytes), Some(p), Some(l)) => {
                    let (ops, to) = crate::interp::copy_ops(bytes, base);
                    Some(
                        (
                            ops.push(crate::interp::pointer(block, p, to)).push(
                                crate::interp::put(block, l, crate::interp::word(bytes.len())),
                            ),
                            quote + 1,
                        ),
                    )
                },
                _ => None,
            }
        },
        TyV::Unit => if c <= d.len() {
            Some((Seq::empty(), crate::scan::value_end(d, c)))
        } else {
            None
        },
        TyV::Struct { name, fields } => match none_fields(fields, 0, env, block, off) {
            None => None,
            Some(pre) => match read_members(
                n,
                fields,
                env,
                d,
                crate::scan::space_end(d, c) + 1,
                block,
                off,
                base + pre.len(),
            ) {
                Some((ops, e)) => Some((pre + ops, e)),
                None => None,
            },
        },
        TyV::Tuple { fields } => if c <= d.len() {
            match read_tuple(
                n,
                fields,
                0,
                env,
                d,
                crate::scan::space_end(d, c) + 1,
                block,
                off,
                base,
            ) {
                Some(ops) => Some((ops, crate::scan::value_end(d, c))),
                None => None,
            }
        } else {
            None
        },
        TyV::Vec { elem, elem_size, elem_align, seq } => {
            let first = crate::scan::space_end(d, c) + 1;
            let align = if elem_align == 0 {
                1
            } else {
                elem_align
            };
            match count(d, first) {
                None => None,
                Some(k) => if !crate::interp::room_ok(k, elem_size, align) {
                    None
                } else {
                    let size = k * elem_size;
                    let pre = crate::interp::home_ops(size, align);
                    let heap = crate::interp::home(size, align, base);
                    let to = crate::interp::home_ptr(size, align, base);
                    match read_items(n, *elem, 0, k, env, d, first, elem_size, heap, base + pre.len()) {
                        None => None,
                        Some((ops, e)) => match crate::interp::seq_words(seq, block, off, to, k) {
                            Ok(words) => Some((pre + ops + words, crate::scan::space_end(d, e) + 1)),
                            Err(_) => None,
                        },
                    }
                },
            }
        },
        TyV::Opt { disc_off, disc_size, none_discr, some_discr, payload_off, size, inner } => {
            let h = crate::scan::space_end(d, c);
            if !(0 <= h < d.len()) {
                None
            } else if d[h] == LOWER_N {
                match disc_op(disc_off, disc_size, none_discr, block, off) {
                    Some(op) => Some((seq![op], h + 4)),
                    None => None,
                }
            } else {
                match crate::interp::further(off, payload_off as int) {
                    None => None,
                    Some(p) => match read(n, *inner, env, d, h, block, p, base) {
                        None => None,
                        Some((ops, e)) => match some_discr {
                            None => Some((ops, e)),
                            Some(v) => match disc_op(disc_off, disc_size, v, block, off) {
                                Some(op) => Some((ops.push(op), e)),
                                None => None,
                            },
                        },
                    },
                }
            }
        },
        TyV::Boxed { inner, size, align } => if !crate::interp::layout_ok(size as int, align as int) {
            None
        } else {
            let pre = crate::interp::home_ops(size as int, align);
            let heap = crate::interp::home(size as int, align, base);
            let to = crate::interp::home_ptr(size as int, align, base);
            match read(n, *inner, env, d, c, heap, 0, base + pre.len()) {
                None => None,
                Some((ops, e)) => Some(((pre + ops).push(crate::interp::pointer(block, off, to)), e)),
            }
        },
        TyV::Rec { site, body } => if n == 0 {
            None
        } else {
            read(
                (n - 1) as nat,
                *body,
                env.push((site, *body)),
                d,
                c,
                block,
                off,
                base,
            )
        },
        TyV::Ref(site) => match crate::interp::find_site(env, env.len(), site) {
            None => None,
            Some(i) => if n == 0 || i >= env.len() {
                None
            } else {
                read(
                    (n - 1) as nat,
                    env[i as int].1,
                    env.take((i + 1) as int),
                    d,
                    c,
                    block,
                    off,
                    base,
                )
            },
        },
        TyV::BTreeMap { key, key_size, val, val_size, new_at, insert } => match *key {
            TyV::Str(seq) => match read_entries(
                n,
                seq,
                key_size,
                *val,
                val_size,
                insert,
                env,
                d,
                crate::scan::space_end(d, c) + 1,
                block,
                off,
                base + 1,
            ) {
                None => None,
                Some((ops, e)) => Some((seq![OpV::MapNew { block, off, at: new_at }] + ops, e)),
            },
            _ => None,
        },
        TyV::Unknown(_) => None,
    }
}

/// Reading a string.
pub open spec fn read_str(seq: SeqLayout, d: Seq<u8>, c: int, block: Block, off: u64, base: nat) -> Option<
    (Seq<OpV>, int),
> {
    let (first, quote) = crate::scan::span(d, c);
    match span_bytes(d, first, quote) {
        None => None,
        Some(bytes) => {
            let (ops, to) = crate::interp::copy_ops(bytes, base);
            match crate::interp::seq_words(seq, block, off, to, bytes.len()) {
                Ok(words) => Some((ops + words, quote + 1)),
                Err(_) => None,
            }
        },
    }
}

/// The alignment of the blocks that a map's keys and values are read into.
pub const SLOT_ALIGN: u64 = 16;

/// How large such a block is.
pub open spec fn room(size: u64) -> u64 {
    if size == 0 {
        1
    } else {
        size
    }
}

/// Reading an object's members into a map, up to the brace that closes it.
pub open spec fn read_entries(
    n: nat,
    seq: SeqLayout,
    key_size: u64,
    val: TyV,
    val_size: u64,
    insert: u64,
    env: crate::interp::Scope,
    d: Seq<u8>,
    c: int,
    block: Block,
    off: u64,
    base: nat,
) -> Option<(Seq<OpV>, int)>
    decreases n, val, d.len() + 4 - c,
{
    let h = crate::scan::space_end(d, c);
    if !(0 <= c && c <= h < d.len()) {
        None
    } else if d[h] == CLOSE_BRACE {
        Some((Seq::empty(), h + 1))
    } else {
        match read_entry(n, seq, key_size, val, val_size, insert, env, d, h, block, off, base) {
            None => None,
            Some((ops, e)) => match comma_end(d, e) {
                None => None,
                Some(next) => if next > c && next <= d.len() {
                    match read_entries(
                        n,
                        seq,
                        key_size,
                        val,
                        val_size,
                        insert,
                        env,
                        d,
                        next,
                        block,
                        off,
                        base + ops.len(),
                    ) {
                        Some((more, last)) => Some((ops + more, last)),
                        None => None,
                    }
                } else {
                    None
                },
            },
        }
    }
}

/// Reading one member into a map: the key and the value into a block each, from
/// where they are moved into the map.
pub open spec fn read_entry(
    n: nat,
    seq: SeqLayout,
    key_size: u64,
    val: TyV,
    val_size: u64,
    insert: u64,
    env: crate::interp::Scope,
    d: Seq<u8>,
    h: int,
    block: Block,
    off: u64,
    base: nat,
) -> Option<(Seq<OpV>, int)>
    decreases n, val, 1int,
{
    if !crate::interp::layout_ok(room(key_size) as int, SLOT_ALIGN as int) || !crate::interp::layout_ok(
        room(val_size) as int,
        SLOT_ALIGN as int,
    ) {
        None
    } else {
        match read_str(seq, d, h, Block::Heap(base as usize), 0, base + 1) {
            None => None,
            Some((key, ke)) => {
                let slot = base + 1 + key.len();
                let at = crate::scan::space_end(d, ke) + 1;
                match read(n, val, env, d, at, Block::Heap(slot as usize), 0, slot + 1) {
                    None => None,
                    Some((ops, e)) => Some(
                        (
                            seq![OpV::Alloc { size: room(key_size), align: SLOT_ALIGN }] + key + seq![
                                OpV::Alloc { size: room(val_size), align: SLOT_ALIGN },
                            ] + ops + seq![
                                OpV::MapInsert {
                                    block,
                                    off,
                                    key: base as usize,
                                    val: slot as usize,
                                    at: insert,
                                },
                            ],
                            e,
                        ),
                    ),
                }
            },
        }
    }
}

/// Reading an integer.
pub open spec fn read_int(d: Seq<u8>, c: int, signed: bool, w: u8, block: Block, off: u64) -> Option<
    (Seq<OpV>, int),
> {
    match crate::scan::int_at(d, c, signed) {
        Some((x, e)) => Some(
            (
                seq![
                    crate::interp::put(
                        block,
                        off,
                        crate::arith::le(x as nat, crate::binder::store_width(w) as nat),
                    ),
                ],
                e,
            ),
        ),
        None => None,
    }
}

/// Reading a floating-point number.
pub open spec fn read_float(d: Seq<u8>, c: int, width: u8, block: Block, off: u64) -> Option<
    (Seq<OpV>, int),
> {
    if c <= d.len() {
        let start = crate::scan::space_end(d, c);
        let end = crate::scan::number_end(d, start);
        Some(
            (
                seq![
                    OpV::Float {
                        block,
                        off,
                        text: crate::text::ascii_text(d.subrange(start, end)),
                        width,
                    },
                ],
                end,
            ),
        )
    } else {
        None
    }
}

/// Reading an object's members up to the brace that closes it: each goes to the
/// first field of its name, or is passed over.
pub open spec fn read_members(
    n: nat,
    fields: Seq<FieldV>,
    env: crate::interp::Scope,
    d: Seq<u8>,
    c: int,
    block: Block,
    off: u64,
    base: nat,
) -> Option<(Seq<OpV>, int)>
    decreases n, fields, d.len() + 2 - c,
{
    let h = crate::scan::space_end(d, c);
    if !(0 <= c && c <= h < d.len()) {
        None
    } else if d[h] == CLOSE_BRACE {
        Some((Seq::empty(), h + 1))
    } else {
        match read_member(n, fields, env, d, h, block, off, base) {
            None => None,
            Some((ops, e)) => match comma_end(d, e) {
                None => None,
                Some(next) => if next > c && next <= d.len() {
                    match read_members(n, fields, env, d, next, block, off, base + ops.len()) {
                        Some((more, last)) => Some((ops + more, last)),
                        None => None,
                    }
                } else {
                    None
                },
            },
        }
    }
}

/// Reading one member: its key, a colon, and its value.
pub open spec fn read_member(
    n: nat,
    fields: Seq<FieldV>,
    env: crate::interp::Scope,
    d: Seq<u8>,
    h: int,
    block: Block,
    off: u64,
    base: nat,
) -> Option<(Seq<OpV>, int)>
    decreases n, fields, 0int,
{
    let (first, quote) = crate::scan::span(d, h);
    let at = crate::scan::space_end(d, quote + 1) + 1;
    if !(0 <= first <= quote <= d.len()) {
        None
    } else {
        match field_at(fields, 0, d.subrange(first, quote)) {
            None => if at <= d.len() {
                Some((Seq::empty(), crate::scan::value_end(d, at)))
            } else {
                None
            },
            Some(k) => if k >= fields.len() {
                None
            } else {
                match crate::interp::further(off, fields[k as int].offset as int) {
                    None => None,
                    Some(p) => read(n, fields[k as int].ty, env, d, at, block, p, base),
                }
            },
        }
    }
}

/// Reading a tuple's fields from the `k`th on, as far as there are items.
pub open spec fn read_tuple(
    n: nat,
    fields: Seq<FieldV>,
    k: nat,
    env: crate::interp::Scope,
    d: Seq<u8>,
    c: int,
    block: Block,
    off: u64,
    base: nat,
) -> Option<Seq<OpV>>
    decreases n, fields, fields.len() - k,
{
    let h = crate::scan::space_end(d, c);
    if k >= fields.len() {
        Some(Seq::empty())
    } else if !(0 <= h < d.len()) {
        None
    } else if d[h] == CLOSE_BRACKET {
        Some(Seq::empty())
    } else {
        match crate::interp::further(off, fields[k as int].offset as int) {
            None => None,
            Some(p) => match read(n, fields[k as int].ty, env, d, h, block, p, base) {
                None => None,
                Some((ops, e)) => match comma_end(d, e) {
                    None => None,
                    Some(next) => match read_tuple(
                        n,
                        fields,
                        k + 1,
                        env,
                        d,
                        next,
                        block,
                        off,
                        base + ops.len(),
                    ) {
                        None => None,
                        Some(more) => Some(ops + more),
                    },
                },
            },
        }
    }
}

/// Reading an array's items from the `i`th on, `k` in all, one after the other
/// in a block.
pub open spec fn read_items(
    n: nat,
    elem: TyV,
    i: nat,
    k: nat,
    env: crate::interp::Scope,
    d: Seq<u8>,
    c: int,
    elem_size: u64,
    heap: Block,
    base: nat,
) -> Option<(Seq<OpV>, int)>
    decreases n, elem, (k - i) + 1,
{
    if i >= k {
        Some((Seq::empty(), c))
    } else {
        match read(
            n,
            elem,
            env,
            d,
            crate::scan::space_end(d, c),
            heap,
            (i * elem_size) as u64,
            base,
        ) {
            None => None,
            Some((ops, e)) => match comma_end(d, e) {
                None => None,
                Some(next) => match read_items(
                    n,
                    elem,
                    i + 1,
                    k,
                    env,
                    d,
                    next,
                    elem_size,
                    heap,
                    base + ops.len(),
                ) {
                    None => None,
                    Some((more, last)) => Some((ops + more, last)),
                },
            },
        }
    }
}

/// Reading never goes back.
pub proof fn lemma_read(
    n: nat,
    ty: TyV,
    env: crate::interp::Scope,
    d: Seq<u8>,
    c: int,
    block: Block,
    off: u64,
    base: nat,
)
    requires
        0 <= c,
    ensures
        read(n, ty, env, d, c, block, off, base) matches Some((ops, e)) ==> c <= e,
    decreases n, ty, 0int,
{
    crate::scan::lemma_space_end(d, c);
    let h = crate::scan::space_end(d, c);
    crate::scan::lemma_quote_at(d, h + 1);
    if c <= d.len() {
        crate::scan::lemma_value_end(d, c);
        crate::scan::lemma_number_end(d, h);
    }
    match ty {
        TyV::U(_) | TyV::I(_) => {
            if h < d.len() {
                crate::scan::lemma_digits(d, h, 0);
                crate::scan::lemma_digits(d, h + 1, 0);
            }
        },
        TyV::Struct { name, fields } => {
            if let Some(pre) = none_fields(fields, 0, env, block, off) {
                lemma_read_members(n, fields, env, d, h + 1, block, off, base + pre.len());
            }
        },
        TyV::Vec { elem, elem_size, elem_align, seq } => {
            if let Some(k) = count(d, h + 1) {
                let align = if elem_align == 0 {
                    1
                } else {
                    elem_align
                };
                let heap = crate::interp::home(k * elem_size, align, base);
                let start = base + crate::interp::home_ops(k * elem_size, align).len();
                lemma_read_items(n, *elem, 0, k, env, d, h + 1, elem_size, heap, start);
                if let Some((ops, e)) = read_items(
                    n,
                    *elem,
                    0,
                    k,
                    env,
                    d,
                    h + 1,
                    elem_size,
                    heap,
                    start,
                ) {
                    crate::scan::lemma_space_end(d, e);
                }
            }
        },
        TyV::Opt { payload_off, inner, .. } => {
            if let Some(p) = crate::interp::further(off, payload_off as int) {
                lemma_read(n, *inner, env, d, h, block, p, base);
            }
        },
        TyV::Boxed { inner, size, align } => {
            let heap = crate::interp::home(size as int, align, base);
            lemma_read(n, *inner, env, d, c, heap, 0, base + crate::interp::home_ops(size as int, align).len());
        },
        TyV::BTreeMap { key, key_size, val, val_size, new_at, insert } => {
            if let TyV::Str(seq) = *key {
                lemma_read_entries(
                    n,
                    seq,
                    key_size,
                    *val,
                    val_size,
                    insert,
                    env,
                    d,
                    h + 1,
                    block,
                    off,
                    base + 1,
                );
            }
        },
        TyV::Rec { site, body } => {
            if n > 0 {
                lemma_read((n - 1) as nat, *body, env.push((site, *body)), d, c, block, off, base);
            }
        },
        TyV::Ref(site) => {
            if let Some(i) = crate::interp::find_site(env, env.len(), site) {
                if n > 0 {
                    lemma_read(
                        (n - 1) as nat,
                        env[i as int].1,
                        env.take((i + 1) as int),
                        d,
                        c,
                        block,
                        off,
                        base,
                    );
                }
            }
        },
        _ => {},
    }
}

proof fn lemma_read_members(
    n: nat,
    fields: Seq<FieldV>,
    env: crate::interp::Scope,
    d: Seq<u8>,
    c: int,
    block: Block,
    off: u64,
    base: nat,
)
    requires
        0 <= c,
    ensures
        read_members(n, fields, env, d, c, block, off, base) matches Some((ops, e)) ==> c <= e,
    decreases n, fields, d.len() + 2 - c,
{
    crate::scan::lemma_space_end(d, c);
    let h = crate::scan::space_end(d, c);
    if h < d.len() && d[h] != CLOSE_BRACE {
        if let Some((ops, e)) = read_member(n, fields, env, d, h, block, off, base) {
            if let Some(next) = comma_end(d, e) {
                if next > c && next <= d.len() {
                    lemma_read_members(n, fields, env, d, next, block, off, base + ops.len());
                }
            }
        }
    }
}

proof fn lemma_read_entries(
    n: nat,
    seq: SeqLayout,
    key_size: u64,
    val: TyV,
    val_size: u64,
    insert: u64,
    env: crate::interp::Scope,
    d: Seq<u8>,
    c: int,
    block: Block,
    off: u64,
    base: nat,
)
    requires
        0 <= c,
    ensures
        read_entries(n, seq, key_size, val, val_size, insert, env, d, c, block, off, base) matches Some(
            (ops, e),
        ) ==> c <= e,
    decreases n, val, d.len() + 4 - c,
{
    crate::scan::lemma_space_end(d, c);
    let h = crate::scan::space_end(d, c);
    if h < d.len() && d[h] != CLOSE_BRACE {
        if let Some((ops, e)) = read_entry(
            n,
            seq,
            key_size,
            val,
            val_size,
            insert,
            env,
            d,
            h,
            block,
            off,
            base,
        ) {
            if let Some(next) = comma_end(d, e) {
                if next > c && next <= d.len() {
                    lemma_read_entries(
                        n,
                        seq,
                        key_size,
                        val,
                        val_size,
                        insert,
                        env,
                        d,
                        next,
                        block,
                        off,
                        base + ops.len(),
                    );
                }
            }
        }
    }
}

proof fn lemma_read_items(
    n: nat,
    elem: TyV,
    i: nat,
    k: nat,
    env: crate::interp::Scope,
    d: Seq<u8>,
    c: int,
    elem_size: u64,
    heap: Block,
    base: nat,
)
    requires
        0 <= c,
    ensures
        read_items(n, elem, i, k, env, d, c, elem_size, heap, base) matches Some((ops, e)) ==> c
            <= e,
    decreases n, elem, (k - i) + 1,
{
    if i < k {
        crate::scan::lemma_space_end(d, c);
        let h = crate::scan::space_end(d, c);
        let off = (i * elem_size) as u64;
        lemma_read(n, elem, env, d, h, heap, off, base);
        if let Some((ops, e)) = read(n, elem, env, d, h, heap, off, base) {
            crate::scan::lemma_space_end(d, e);
            if let Some(next) = comma_end(d, e) {
                lemma_read_items(
                    n,
                    elem,
                    i + 1,
                    k,
                    env,
                    d,
                    next,
                    elem_size,
                    heap,
                    base + ops.len(),
                );
            }
        }
    }
}

} // verus!
