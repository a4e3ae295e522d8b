//! What the writes that lay a value out leave in memory. [`shows`] says what it is
//! for memory to hold a document as a type; [`law_laid_out_shows`] that binding the
//! document to the type leaves memory so, where the type's parts do not overlap.
use crate::interp::{Block, OpV, Scope};
use crate::json::JsonV;
use crate::plan::{FieldV, SeqLayout, TyV};
use vstd::prelude::*;

verus! {

/// What a byte of memory holds: a byte, or a part of the address of an allocated
/// block, of the floating-point number of some text, or of a map.
pub enum Cell {
    Byte(u8),
    OfPtr(usize, int),
    OfFloat(Seq<char>, u8, int),
    /// A part of a map, into which keys and values have been moved from the starts of
    /// allocated blocks, in that order.
    OfMap(Seq<(usize, usize)>, int),
}

/// How many bytes a map takes.
pub const MAP_SIZE: u64 = 24;

/// What has been moved into the map at a place, where there is one.
pub open spec fn entries_at(mem: Mem, block: Block, off: int) -> Seq<(usize, usize)> {
    match mem(block, off) {
        Some(Cell::OfMap(entries, k)) => entries,
        _ => Seq::empty(),
    }
}

/// Memory: what stands at a position of a block, where anything has been written.
pub type Mem = spec_fn(Block, int) -> Option<Cell>;

/// Whether a write changes a byte.
pub open spec fn touches(op: OpV, b: Block, i: int) -> bool {
    match op {
        OpV::Alloc { .. } => false,
        OpV::Zero { block, off, len } => b == block && off <= i < off + len,
        OpV::Bytes { block, off, bytes } => b == block && off <= i < off + bytes.len(),
        OpV::Float { block, off, text, width } => b == block && off <= i < off + width,
        OpV::Ptr { block, off, to } => b == block && off <= i < off + 8,
        OpV::MapNew { block, off, at } => b == block && off <= i < off + MAP_SIZE,
        OpV::MapInsert { block, off, key, val, at } => b == block && off <= i < off + MAP_SIZE,
    }
}

/// What a write puts into a byte that it changes, in memory as it was.
pub open spec fn cell_of(mem: Mem, op: OpV, i: int) -> Cell {
    match op {
        OpV::Alloc { .. } => Cell::Byte(0),
        OpV::Zero { block, off, len } => Cell::Byte(0),
        OpV::Bytes { block, off, bytes } => Cell::Byte(bytes[i - off]),
        OpV::Float { block, off, text, width } => Cell::OfFloat(text, width, i - off),
        OpV::Ptr { block, off, to } => Cell::OfPtr(to, i - off),
        OpV::MapNew { block, off, at } => Cell::OfMap(Seq::empty(), i - off),
        OpV::MapInsert { block, off, key, val, at } => Cell::OfMap(
            entries_at(mem, block, off as int).push((key, val)),
            i - off,
        ),
    }
}

/// Memory after a write.
pub open spec fn after_one(mem: Mem, op: OpV) -> Mem {
    |b: Block, i: int|
        if touches(op, b, i) {
            Some(cell_of(mem, op, i))
        } else {
            mem(b, i)
        }
}

/// Memory after some writes.
pub open spec fn after(mem: Mem, ops: Seq<OpV>) -> Mem
    decreases ops.len(),
{
    if ops.len() == 0 {
        mem
    } else {
        after_one(after(mem, ops.drop_last()), ops.last())
    }
}

/// Whether memory holds some bytes at a place.
pub open spec fn bytes_at(mem: Mem, block: Block, off: int, bytes: Seq<u8>) -> bool {
    forall|i: int|
        off <= i < off + bytes.len() ==> #[trigger] mem(block, i) == Some(Cell::Byte(bytes[i - off]))
}

/// Whether memory holds the address of an allocated block at a place.
pub open spec fn points_at(mem: Mem, block: Block, off: int, to: usize) -> bool {
    forall|i: int| off <= i < off + 8 ==> #[trigger] mem(block, i) == Some(Cell::OfPtr(to, i - off))
}

/// Whether memory holds the floating-point number of some text at a place.
pub open spec fn float_at(mem: Mem, block: Block, off: int, text: Seq<char>, width: u8) -> bool {
    forall|i: int|
        off <= i < off + width ==> #[trigger] mem(block, i) == Some(Cell::OfFloat(text, width, i - off))
}

/// The allocated block whose address is at a place.
pub open spec fn target(mem: Mem, block: Block, off: int) -> Option<usize> {
    match mem(block, off) {
        Some(Cell::OfPtr(k, _)) => Some(k),
        _ => None,
    }
}

/// Whether the pointer at a place leads to a block of its own, among those from
/// `lo` to before `hi`.
pub open spec fn leads(mem: Mem, block: Block, off: int, lo: int, hi: int) -> bool {
    match target(mem, block, off) {
        Some(k) => lo <= k < hi && points_at(mem, block, off, k),
        None => false,
    }
}

/// Where the pointer at a place leads to.
pub open spec fn led_to(mem: Mem, block: Block, off: int) -> Block {
    Block::Heap(target(mem, block, off)->0)
}

/// Whether the pointer at a place leads to something of a size and alignment: to a
/// block of its own, or nowhere, where it takes up nothing.
pub open spec fn reaches(mem: Mem, block: Block, off: int, size: int, align: u64, lo: int, hi: int) -> bool {
    if size == 0 {
        bytes_at(mem, block, off, crate::interp::word(align as nat))
    } else {
        leads(mem, block, off, lo, hi)
    }
}

/// Where that is.
pub open spec fn reached(mem: Mem, block: Block, off: int, size: int, align: u64) -> Block {
    if size == 0 {
        Block::Nowhere(align)
    } else {
        led_to(mem, block, off)
    }
}

/// The alignment of items, which is never zero.
pub open spec fn item_align(elem_align: u64) -> u64 {
    if elem_align == 0 {
        1
    } else {
        elem_align
    }
}

/// Whether memory holds some bytes behind the pointer at a place: behind one to
/// nowhere, where there are none.
pub open spec fn behind(mem: Mem, block: Block, off: int, bytes: Seq<u8>, lo: int, hi: int) -> bool {
    if bytes.len() == 0 {
        bytes_at(mem, block, off, crate::interp::word(1))
    } else {
        leads(mem, block, off, lo, hi) && bytes_at(mem, led_to(mem, block, off), 0, bytes)
    }
}

/// Whether memory holds the capacity and the length of a `Vec`-like value.
pub open spec fn counts_at(mem: Mem, seq: SeqLayout, block: Block, off: int, n: nat) -> bool {
    &&& bytes_at(mem, block, off + seq.cap_off, crate::interp::word(n))
    &&& bytes_at(mem, block, off + seq.len_off, crate::interp::word(n))
}

/// Whether memory holds an `Option` without a value: the discriminant says so, and
/// nothing else matters.
pub open spec fn none_at(
    mem: Mem,
    disc_off: usize,
    disc_size: u8,
    none_discr: u128,
    block: Block,
    off: int,
) -> bool {
    bytes_at(mem, block, off + disc_off, crate::arith::le(none_discr as nat, disc_size as nat))
}

/// Whether memory holds, for a field that the document has no member for, an
/// `Option` without a value.
pub open spec fn shows_absent(ty: TyV, env: Scope, limit: nat, mem: Mem, block: Block, off: int) -> bool
    decreases limit, ty,
{
    match ty {
        TyV::Opt { disc_off, disc_size, none_discr, some_discr, payload_off, size, inner } => none_at(
            mem,
            disc_off,
            disc_size,
            none_discr,
            block,
            off,
        ),
        TyV::Rec { site, body } => shows_absent(*body, env.push((site, *body)), limit, mem, block, off),
        TyV::Ref(site) => match crate::interp::find_site(env, env.len(), site) {
            Some(i) => i < limit && shows_absent(
                env[i as int].1,
                env.take((i + 1) as int),
                i,
                mem,
                block,
                off,
            ),
            None => false,
        },
        _ => false,
    }
}

/// Whether memory holds a document as a type at a place. Its pointers lead to
/// allocated blocks from `lo` to before `hi`.
pub open spec fn shows(
    ty: TyV,
    env: Scope,
    limit: nat,
    v: JsonV,
    mem: Mem,
    block: Block,
    off: int,
    lo: int,
    hi: int,
) -> bool
    decreases v, limit, ty, 0nat,
{
    match ty {
        TyV::Bool => bytes_at(
            mem,
            block,
            off,
            seq![
                if v == JsonV::Bool(true) {
                    1u8
                } else {
                    0u8
                },
            ],
        ),
        TyV::Char => match v {
            JsonV::Str(s) => bytes_at(
                mem,
                block,
                off,
                crate::arith::le(crate::interp::first_char(s) as nat, 4),
            ),
            _ => false,
        },
        TyV::U(n) => match crate::json::u128_of(v) {
            Some(x) => bytes_at(mem, block, off, crate::arith::le(x, n as nat)),
            None => false,
        },
        TyV::I(n) => match crate::json::i128_of(v) {
            Some(x) => bytes_at(
                mem,
                block,
                off,
                crate::arith::le(crate::arith::as_unsigned(x), n as nat),
            ),
            None => false,
        },
        TyV::F32 => match v {
            JsonV::Num(text) => float_at(mem, block, off, text, 4),
            _ => false,
        },
        TyV::F64 => match v {
            JsonV::Num(text) => float_at(mem, block, off, text, 8),
            _ => false,
        },
        TyV::Unit => true,
        TyV::Struct { name, fields } => shows_fields(fields, 0, env, v, mem, block, off, lo, hi),
        TyV::Tuple { fields } => match v {
            JsonV::Array(items) => shows_tuple(fields, 0, env, items, mem, block, off, lo, hi),
            _ => false,
        },
        TyV::Str(seq) => match v {
            JsonV::Str(s) => {
                let bytes = vstd::utf8::encode_utf8(s);
                &&& behind(mem, block, off + seq.ptr_off, bytes, lo, hi)
                &&& counts_at(mem, seq, block, off, bytes.len())
            },
            _ => false,
        },
        TyV::StrRef { ptr_off, len_off } => match v {
            JsonV::Str(s) => {
                let bytes = vstd::utf8::encode_utf8(s);
                &&& behind(mem, block, off + ptr_off, bytes, lo, hi)
                &&& bytes_at(mem, block, off + len_off, crate::interp::word(bytes.len()))
            },
            _ => false,
        },
        TyV::Vec { elem, elem_size, elem_align, seq } => match v {
            JsonV::Array(items) => {
                let size = items.len() * elem_size;
                let align = item_align(elem_align);
                &&& counts_at(mem, seq, block, off, items.len())
                &&& reaches(mem, block, off + seq.ptr_off, size, align, lo, hi)
                &&& shows_items(
                    *elem,
                    0,
                    env,
                    items,
                    elem_size,
                    mem,
                    reached(mem, block, off + seq.ptr_off, size, align),
                    lo,
                    hi,
                )
            },
            _ => false,
        },
        TyV::Opt { disc_off, disc_size, none_discr, some_discr, payload_off, size, inner } => if v
            == JsonV::Null {
            none_at(mem, disc_off, disc_size, none_discr, block, off)
        } else {
            &&& shows(*inner, env, limit, v, mem, block, off + payload_off, lo, hi)
            &&& match some_discr {
                Some(d) => bytes_at(
                    mem,
                    block,
                    off + disc_off,
                    crate::arith::le(d as nat, disc_size as nat),
                ),
                None => true,
            }
        },
        TyV::Boxed { inner, size, align } => {
            &&& reaches(mem, block, off, size as int, align, lo, hi)
            &&& shows(*inner, env, limit, v, mem, reached(mem, block, off, size as int, align), 0, lo, hi)
        },
        TyV::Rec { site, body } => shows(
            *body,
            env.push((site, *body)),
            limit,
            v,
            mem,
            block,
            off,
            lo,
            hi,
        ),
        TyV::Ref(site) => match crate::interp::find_site(env, env.len(), site) {
            None => false,
            Some(i) => i < limit && shows(
                env[i as int].1,
                env.take((i + 1) as int),
                i,
                v,
                mem,
                block,
                off,
                lo,
                hi,
            ),
        },
        TyV::BTreeMap { key, key_size, val, val_size, new_at, insert } => match (*key, v) {
            (TyV::Str(seq), JsonV::Object(kvs)) => {
                let entries = entries_at(mem, block, off);
                &&& map_at(mem, block, off, entries)
                &&& shows_entries(seq, *val, env, kvs, entries, mem, lo, hi)
            },
            _ => false,
        },
        TyV::Unknown(what) => false,
    }
}

/// Whether memory holds a map into which that has been moved.
pub open spec fn map_at(mem: Mem, block: Block, off: int, entries: Seq<(usize, usize)>) -> bool {
    forall|i: int|
        off <= i < off + MAP_SIZE ==> #[trigger] mem(block, i) == Some(Cell::OfMap(entries, i - off))
}

/// Whether memory holds a string at the start of an allocated block.
pub open spec fn key_at(mem: Mem, seq: SeqLayout, k: usize, name: Seq<char>, lo: int, hi: int) -> bool {
    let bytes = vstd::utf8::encode_utf8(name);
    &&& lo <= k < hi
    &&& behind(mem, Block::Heap(k), seq.ptr_off as int, bytes, lo, hi)
    &&& counts_at(mem, seq, Block::Heap(k), 0, bytes.len())
}

/// Whether what has been moved into a map are members, in their order.
pub open spec fn shows_entries(
    seq: SeqLayout,
    val: TyV,
    env: Scope,
    kvs: Seq<(Seq<char>, JsonV)>,
    entries: Seq<(usize, usize)>,
    mem: Mem,
    lo: int,
    hi: int,
) -> bool
    decreases kvs, 0nat, val, 0nat,
{
    if kvs.len() == 0 || entries.len() == 0 {
        kvs.len() == 0 && entries.len() == 0
    } else {
        proof {
            assert(decreases_to!(kvs => kvs[0]));
            assert(decreases_to!(kvs[0] => kvs[0].1));
        }
        let (k, v) = entries[0];
        &&& key_at(mem, seq, k, kvs[0].0, lo, hi)
        &&& lo <= v < hi
        &&& shows(val, env, env.len(), kvs[0].1, mem, Block::Heap(v), 0, lo, hi)
        &&& shows_entries(seq, val, env, kvs.drop_first(), entries.drop_first(), mem, lo, hi)
    }
}

/// Whether memory holds a struct's fields from the `k`th on.
pub open spec fn shows_fields(
    fields: Seq<FieldV>,
    k: nat,
    env: Scope,
    v: JsonV,
    mem: Mem,
    block: Block,
    off: int,
    lo: int,
    hi: int,
) -> bool
    decreases v, 0nat, fields, fields.len() - k,
{
    if k >= fields.len() {
        true
    } else {
        let f = fields[k as int];
        &&& match crate::json::get_of(v, f.name) {
            Some(sub) => {
                proof {
                    crate::json::lemma_get_of(v, f.name);
                }
                shows(f.ty, env, env.len(), sub, mem, block, off + f.offset, lo, hi)
            },
            None => shows_absent(f.ty, env, env.len(), mem, block, off + f.offset),
        }
        &&& shows_fields(fields, k + 1, env, v, mem, block, off, lo, hi)
    }
}

/// Whether memory holds a tuple's fields from the `k`th on, as far as there are
/// items for them.
pub open spec fn shows_tuple(
    fields: Seq<FieldV>,
    k: nat,
    env: Scope,
    items: Seq<JsonV>,
    mem: Mem,
    block: Block,
    off: int,
    lo: int,
    hi: int,
) -> bool
    decreases items, 0nat, fields, fields.len() - k,
{
    if k >= fields.len() || k >= items.len() {
        true
    } else {
        let f = fields[k as int];
        &&& shows(f.ty, env, env.len(), items[k as int], mem, block, off + f.offset, lo, hi)
        &&& shows_tuple(fields, k + 1, env, items, mem, block, off, lo, hi)
    }
}

/// Whether memory holds items from the `k`th on, one after the other in a block.
pub open spec fn shows_items(
    elem: TyV,
    k: nat,
    env: Scope,
    items: Seq<JsonV>,
    elem_size: u64,
    mem: Mem,
    block: Block,
    lo: int,
    hi: int,
) -> bool
    decreases items, 0nat, elem, items.len() - k,
{
    if k >= items.len() {
        true
    } else {
        &&& shows(elem, env, env.len(), items[k as int], mem, block, k * elem_size, lo, hi)
        &&& shows_items(elem, k + 1, env, items, elem_size, mem, block, lo, hi)
    }
}

// ---------------------------------------------------------------------------
// Types whose parts do not overlap.
// ---------------------------------------------------------------------------

pub open spec fn larger(a: int, b: int) -> int {
    if a < b {
        b
    } else {
        a
    }
}

/// How many bytes a value of a type takes, from its place on; nothing where the
/// type contains itself other than behind a pointer.
pub open spec fn span(ty: TyV, env: Scope, limit: nat) -> Option<int>
    decreases limit, ty, 0nat,
{
    match ty {
        TyV::Bool => Some(1),
        TyV::Char => Some(4),
        TyV::U(n) => Some(n as int),
        TyV::I(n) => Some(n as int),
        TyV::F32 => Some(4),
        TyV::F64 => Some(8),
        TyV::Unit => Some(0),
        TyV::Struct { name, fields } => span_fields(fields, fields.len(), env, limit),
        TyV::Tuple { fields } => span_fields(fields, fields.len(), env, limit),
        TyV::Str(seq) => Some(span_words(seq)),
        TyV::StrRef { ptr_off, len_off } => Some(larger(ptr_off as int, len_off as int) + 8),
        TyV::Vec { elem, elem_size, elem_align, seq } => Some(span_words(seq)),
        TyV::Opt { disc_off, disc_size, none_discr, some_discr, payload_off, size, inner } => match span(
            *inner,
            env,
            limit,
        ) {
            Some(n) => Some(larger(larger(size as int, disc_off + disc_size), payload_off + n)),
            None => None,
        },
        TyV::Boxed { inner, size, align } => Some(8),
        TyV::Rec { site, body } => span(*body, env.push((site, *body)), limit),
        TyV::Ref(site) => match crate::interp::find_site(env, env.len(), site) {
            Some(i) => if i < limit {
                span(env[i as int].1, env.take((i + 1) as int), i)
            } else {
                None
            },
            None => None,
        },
        TyV::BTreeMap { .. } => Some(MAP_SIZE as int),
        TyV::Unknown(what) => Some(0),
    }
}

pub open spec fn span_words(seq: SeqLayout) -> int {
    larger(larger(seq.ptr_off as int, seq.cap_off as int), seq.len_off as int) + 8
}

/// How many bytes the first `n` fields take.
pub open spec fn span_fields(fields: Seq<FieldV>, n: nat, env: Scope, limit: nat) -> Option<int>
    decreases limit, fields, n,
{
    if n == 0 || n > fields.len() {
        Some(0)
    } else {
        match (
            span_fields(fields, (n - 1) as nat, env, limit),
            span(fields[n - 1].ty, env, limit),
        ) {
            (Some(a), Some(b)) => Some(larger(a, fields[n - 1].offset + b)),
            _ => None,
        }
    }
}

/// Whether two pieces do not overlap.
pub open spec fn apart(a: int, m: int, b: int, n: int) -> bool {
    a + m <= b || b + n <= a
}

/// Where a field ends, from the start of what it is in.
pub open spec fn field_span(f: FieldV, env: Scope) -> int {
    span(f.ty, env, env.len())->0
}

/// Whether a type's parts do not overlap: its fields, the words of a `Vec`-like
/// value, items one after the other, a discriminant beside its value; so too for
/// what is behind pointers.
pub open spec fn no_overlap(ty: TyV, env: Scope) -> bool
    decreases ty, 0nat,
{
    match ty {
        TyV::Struct { name, fields } => fields_apart(fields, fields.len(), env),
        TyV::Tuple { fields } => fields_apart(fields, fields.len(), env),
        TyV::Str(seq) => words_apart(seq),
        TyV::StrRef { ptr_off, len_off } => apart(ptr_off as int, 8, len_off as int, 8),
        TyV::Vec { elem, elem_size, elem_align, seq } => {
            &&& words_apart(seq)
            &&& no_overlap(*elem, env)
            &&& span(*elem, env, env.len()) is Some
            &&& span(*elem, env, env.len())->0 <= elem_size
        },
        TyV::Opt { disc_off, disc_size, none_discr, some_discr, payload_off, size, inner } => {
            &&& no_overlap(*inner, env)
            &&& span(*inner, env, env.len()) is Some
            &&& some_discr is Some ==> apart(
                disc_off as int,
                disc_size as int,
                payload_off as int,
                span(*inner, env, env.len())->0,
            )
        },
        TyV::Boxed { inner, size, align } => {
            &&& no_overlap(*inner, env)
            &&& span(*inner, env, env.len()) is Some
            &&& size == 0 ==> span(*inner, env, env.len())->0 <= 0
        },
        TyV::BTreeMap { key, key_size, val, val_size, new_at, insert } => {
            &&& *key matches TyV::Str(seq) ==> words_apart(seq)
            &&& no_overlap(*val, env)
            &&& span(*val, env, env.len()) is Some
        },
        TyV::Rec { site, body } => {
            &&& no_overlap(*body, env.push((site, *body)))
            &&& span(*body, env.push((site, *body)), env.len()) is Some
        },
        _ => true,
    }
}

pub open spec fn words_apart(seq: SeqLayout) -> bool {
    &&& apart(seq.ptr_off as int, 8, seq.cap_off as int, 8)
    &&& apart(seq.ptr_off as int, 8, seq.len_off as int, 8)
    &&& apart(seq.cap_off as int, 8, seq.len_off as int, 8)
}

/// Whether the first `n` fields do not overlap.
pub open spec fn fields_apart(fields: Seq<FieldV>, n: nat, env: Scope) -> bool
    decreases fields, n,
{
    if n == 0 || n > fields.len() {
        true
    } else {
        let f = fields[n - 1];
        &&& fields_apart(fields, (n - 1) as nat, env)
        &&& no_overlap(f.ty, env)
        &&& span(f.ty, env, env.len()) is Some
        &&& forall|j: int|
            0 <= j < n - 1 ==> apart(
                (#[trigger] fields[j]).offset as int,
                field_span(fields[j], env),
                f.offset as int,
                field_span(f, env),
            )
    }
}

/// Whether the enclosing types do not overlap in their parts.
pub open spec fn scope_ok(env: Scope) -> bool {
    forall|i: int|
        0 <= i < env.len() ==> {
            &&& no_overlap((#[trigger] env[i]).1, env.take(i + 1))
            &&& span(env[i].1, env.take(i + 1), i as nat) is Some
        }
}

// ---------------------------------------------------------------------------
// How large types are.
// ---------------------------------------------------------------------------

pub(crate) proof fn lemma_span_more(ty: TyV, env: Scope, a: nat, b: nat)
    requires
        a <= b,
        span(ty, env, a) is Some,
    ensures
        span(ty, env, b) == span(ty, env, a),
        span(ty, env, a)->0 >= 0,
    decreases a, ty, 0nat,
{
    match ty {
        TyV::Struct { name, fields } => lemma_span_more_fields(fields, fields.len(), env, a, b),
        TyV::Tuple { fields } => lemma_span_more_fields(fields, fields.len(), env, a, b),
        TyV::Opt { disc_off, disc_size, none_discr, some_discr, payload_off, size, inner } => {
            lemma_span_more(*inner, env, a, b);
        },
        TyV::Rec { site, body } => lemma_span_more(*body, env.push((site, *body)), a, b),
        TyV::Ref(site) => {
            let i = crate::interp::find_site(env, env.len(), site)->0;
            lemma_span_more(env[i as int].1, env.take((i + 1) as int), i, i);
        },
        _ => {},
    }
}

proof fn lemma_span_more_fields(fields: Seq<FieldV>, n: nat, env: Scope, a: nat, b: nat)
    requires
        a <= b,
        span_fields(fields, n, env, a) is Some,
    ensures
        span_fields(fields, n, env, b) == span_fields(fields, n, env, a),
        span_fields(fields, n, env, a)->0 >= 0,
    decreases a, fields, n,
{
    if !(n == 0 || n > fields.len()) {
        lemma_span_more_fields(fields, (n - 1) as nat, env, a, b);
        lemma_span_more(fields[n - 1].ty, env, a, b);
    }
}

/// A field lies within what its fields take.
pub(crate) proof fn lemma_field_within(fields: Seq<FieldV>, n: nat, env: Scope, k: int)
    requires
        0 <= k < n <= fields.len(),
        span_fields(fields, n, env, env.len()) is Some,
    ensures
        span(fields[k].ty, env, env.len()) is Some,
        0 <= field_span(fields[k], env),
        fields[k].offset + field_span(fields[k], env) <= span_fields(fields, n, env, env.len())->0,
    decreases n,
{
    lemma_span_more(fields[n - 1].ty, env, env.len(), env.len());
    if k < n - 1 {
        lemma_field_within(fields, (n - 1) as nat, env, k);
    }
}

/// What fields that do not overlap promise of each of them.
pub(crate) proof fn lemma_fields_apart(fields: Seq<FieldV>, n: nat, env: Scope, k: int)
    requires
        0 <= k < n <= fields.len(),
        fields_apart(fields, n, env),
    ensures
        no_overlap(fields[k].ty, env),
        span(fields[k].ty, env, env.len()) is Some,
        0 <= field_span(fields[k], env),
        forall|j: int|
            0 <= j < n && j != k ==> apart(
                (#[trigger] fields[j]).offset as int,
                field_span(fields[j], env),
                fields[k].offset as int,
                field_span(fields[k], env),
            ),
    decreases n,
{
    if k < n - 1 {
        lemma_fields_apart(fields, (n - 1) as nat, env, k);
        assert(apart(
            fields[k].offset as int,
            field_span(fields[k], env),
            fields[n - 1].offset as int,
            field_span(fields[n - 1], env),
        ));
    } else {
        lemma_span_more(fields[k].ty, env, env.len(), env.len());
    }
}

pub(crate) proof fn lemma_scope_push(env: Scope, site: crate::plan::Site, body: TyV)
    requires
        scope_ok(env),
        no_overlap(body, env.push((site, body))),
        span(body, env.push((site, body)), env.len()) is Some,
    ensures
        scope_ok(env.push((site, body))),
{
    let more = env.push((site, body));
    assert forall|i: int| 0 <= i < more.len() implies no_overlap((#[trigger] more[i]).1, more.take(i + 1)) && span(
        more[i].1,
        more.take(i + 1),
        i as nat,
    ) is Some by {
        if i < env.len() {
            assert(more.take(i + 1) =~= env.take(i + 1));
            assert(more[i] == env[i]);
        } else {
            assert(more.take(i + 1) =~= more);
        }
    }
}

pub(crate) proof fn lemma_scope_take(env: Scope, i: int)
    requires
        scope_ok(env),
        0 <= i < env.len(),
    ensures
        scope_ok(env.take(i + 1)),
        no_overlap(env[i].1, env.take(i + 1)),
        span(env[i].1, env.take(i + 1), i as nat) is Some,
        span(env[i].1, env.take(i + 1), (i + 1) as nat) == span(env[i].1, env.take(i + 1), i as nat),
{
    let less = env.take(i + 1);
    assert forall|j: int| 0 <= j < less.len() implies no_overlap((#[trigger] less[j]).1, less.take(j + 1)) && span(
        less[j].1,
        less.take(j + 1),
        j as nat,
    ) is Some by {
        assert(less.take(j + 1) =~= env.take(j + 1));
        assert(less[j] == env[j]);
    }
    assert(no_overlap(env[i].1, env.take(i + 1)));
    lemma_span_more(env[i].1, env.take(i + 1), i as nat, (i + 1) as nat);
}

// ---------------------------------------------------------------------------
// What writes leave alone.
// ---------------------------------------------------------------------------

/// A part of memory.
pub type Area = spec_fn(Block, int) -> bool;

/// Whether a block is an allocated one, from `lo` to before `hi`.
pub open spec fn heap_in(b: Block, lo: int, hi: int) -> bool {
    match b {
        Block::Heap(k) => lo <= k < hi,
        _ => false,
    }
}

/// Some bytes of a block, and some allocated blocks.
pub open spec fn area(block: Block, off: int, n: int, lo: int, hi: int) -> Area {
    |b: Block, i: int| (b == block && off <= i < off + n) || heap_in(b, lo, hi)
}

/// Whether a byte belongs to a field from the `k`th on.
pub open spec fn in_fields(fields: Seq<FieldV>, k: int, env: Scope, off: int, i: int) -> bool {
    exists|j: int|
        k <= j < fields.len() && off + (#[trigger] fields[j]).offset <= i < off + fields[j].offset + field_span(
            fields[j],
            env,
        )
}

/// The bytes of fields from the `k`th on, and some allocated blocks.
pub open spec fn fields_area(
    fields: Seq<FieldV>,
    k: int,
    env: Scope,
    block: Block,
    off: int,
    lo: int,
    hi: int,
) -> Area {
    |b: Block, i: int| (b == block && in_fields(fields, k, env, off, i)) || heap_in(b, lo, hi)
}

/// Whether writes change nothing but an area.
pub open spec fn confined(ops: Seq<OpV>, a: Area) -> bool {
    forall|k: int, b: Block, i: int|
        0 <= k < ops.len() && #[trigger] touches(ops[k], b, i) ==> a(b, i)
}

/// Whether two memories hold the same in an area.
pub open spec fn agree(m: Mem, q: Mem, a: Area) -> bool {
    forall|b: Block, i: int| #![trigger m(b, i)] #![trigger q(b, i)] a(b, i) ==> m(b, i) == q(b, i)
}

pub(crate) proof fn lemma_after_rest(mem: Mem, ops: Seq<OpV>, a: Area, b: Block, i: int)
    requires
        confined(ops, a),
        !a(b, i),
    ensures
        after(mem, ops)(b, i) == mem(b, i),
    decreases ops.len(),
{
    if ops.len() > 0 {
        let less = ops.drop_last();
        assert forall|k: int, c: Block, j: int| 0 <= k < less.len() && #[trigger] touches(less[k], c, j) implies a(
            c,
            j,
        ) by {
            assert(touches(ops[k], c, j));
        }
        lemma_after_rest(mem, less, a, b, i);
        assert(!touches(ops[ops.len() - 1], b, i));
    }
}

pub(crate) proof fn lemma_after_join(mem: Mem, a: Seq<OpV>, b: Seq<OpV>)
    ensures
        after(mem, a + b) == after(after(mem, a), b),
    decreases b.len(),
{
    if b.len() == 0 {
        assert(a + b =~= a);
    } else {
        lemma_after_join(mem, a, b.drop_last());
        assert((a + b).drop_last() =~= a + b.drop_last());
        assert((a + b).last() == b.last());
    }
}

pub(crate) proof fn lemma_confined_join(a: Seq<OpV>, b: Seq<OpV>, x: Area)
    requires
        confined(a, x),
        confined(b, x),
    ensures
        confined(a + b, x),
{
    assert forall|k: int, c: Block, i: int| 0 <= k < (a + b).len() && #[trigger] touches((a + b)[k], c, i) implies x(
        c,
        i,
    ) by {
        if k < a.len() {
            assert((a + b)[k] == a[k]);
        } else {
            assert((a + b)[k] == b[k - a.len()]);
        }
    }
}

pub(crate) proof fn lemma_confined_more(ops: Seq<OpV>, x: Area, y: Area)
    requires
        confined(ops, x),
        forall|b: Block, i: int| #[trigger] x(b, i) ==> y(b, i),
    ensures
        confined(ops, y),
{
    assert forall|k: int, b: Block, i: int| 0 <= k < ops.len() && #[trigger] touches(ops[k], b, i) implies y(b, i) by {
        assert(x(b, i));
    }
}

/// Writes that change nothing in an area leave it as it was.
pub(crate) proof fn lemma_agree_after(mem: Mem, ops: Seq<OpV>, x: Area, y: Area)
    requires
        confined(ops, x),
        forall|b: Block, i: int| !(#[trigger] x(b, i) && #[trigger] y(b, i)),
    ensures
        agree(mem, after(mem, ops), y),
{
    assert forall|b: Block, i: int| y(b, i) implies mem(b, i) == #[trigger] after(mem, ops)(b, i) by {
        assert(!(x(b, i) && y(b, i)));
        lemma_after_rest(mem, ops, x, b, i);
    }
}

// ---------------------------------------------------------------------------
// What memory holds rests on an area of it.
// ---------------------------------------------------------------------------

/// How many bytes numbers are written in.
pub(crate) proof fn lemma_lengths()
    ensures
        forall|x: nat, n: nat| (#[trigger] crate::arith::le(x, n)).len() == n,
        forall|x: nat| (#[trigger] crate::interp::word(x)).len() == 8,
{
    assert forall|x: nat, n: nat| (#[trigger] crate::arith::le(x, n)).len() == n by {
        crate::arith::lemma_le_len(x, n);
    }
}

pub(crate) proof fn lemma_bytes_agree(m: Mem, q: Mem, a: Area, block: Block, off: int, bytes: Seq<u8>)
    requires
        agree(m, q, a),
        forall|i: int| off <= i < off + bytes.len() ==> #[trigger] a(block, i),
        bytes_at(m, block, off, bytes),
    ensures
        bytes_at(q, block, off, bytes),
{
    assert forall|i: int| off <= i < off + bytes.len() implies #[trigger] q(block, i) == Some(
        Cell::Byte(bytes[i - off]),
    ) by {
        assert(a(block, i));
        assert(m(block, i) == Some(Cell::Byte(bytes[i - off])));
    }
}

proof fn lemma_leads_agree(m: Mem, q: Mem, a: Area, block: Block, off: int, lo: int, hi: int, lo2: int, hi2: int)
    requires
        agree(m, q, a),
        forall|i: int| off <= i < off + 8 ==> #[trigger] a(block, i),
        leads(m, block, off, lo, hi),
        lo2 <= lo,
        hi <= hi2,
    ensures
        leads(q, block, off, lo2, hi2),
        led_to(q, block, off) == led_to(m, block, off),
        heap_in(led_to(m, block, off), lo, hi),
{
    assert(a(block, off));
    let k = target(m, block, off)->0;
    assert(m(block, off) == q(block, off));
    assert forall|i: int| off <= i < off + 8 implies #[trigger] q(block, i) == Some(Cell::OfPtr(k, i - off)) by {
        assert(a(block, i));
        assert(m(block, i) == Some(Cell::OfPtr(k, i - off)));
    }
}

proof fn lemma_reaches_agree(
    m: Mem,
    q: Mem,
    a: Area,
    block: Block,
    off: int,
    size: int,
    align: u64,
    lo: int,
    hi: int,
    lo2: int,
    hi2: int,
)
    requires
        agree(m, q, a),
        forall|i: int| off <= i < off + 8 ==> #[trigger] a(block, i),
        reaches(m, block, off, size, align, lo, hi),
        lo2 <= lo,
        hi <= hi2,
    ensures
        reaches(q, block, off, size, align, lo2, hi2),
        reached(q, block, off, size, align) == reached(m, block, off, size, align),
        size != 0 ==> heap_in(reached(m, block, off, size, align), lo, hi),
{
    if size == 0 {
        lemma_lengths();
        lemma_bytes_agree(m, q, a, block, off, crate::interp::word(align as nat));
    } else {
        lemma_leads_agree(m, q, a, block, off, lo, hi, lo2, hi2);
    }
}

pub(crate) proof fn lemma_behind_agree(
    m: Mem,
    q: Mem,
    a: Area,
    block: Block,
    off: int,
    bytes: Seq<u8>,
    lo: int,
    hi: int,
    lo2: int,
    hi2: int,
)
    requires
        agree(m, q, a),
        forall|i: int| off <= i < off + 8 ==> #[trigger] a(block, i),
        forall|b: Block, i: int| heap_in(b, lo, hi) ==> #[trigger] a(b, i),
        behind(m, block, off, bytes, lo, hi),
        lo2 <= lo,
        hi <= hi2,
    ensures
        behind(q, block, off, bytes, lo2, hi2),
{
    lemma_lengths();
    if bytes.len() == 0 {
        lemma_bytes_agree(m, q, a, block, off, crate::interp::word(1));
    } else {
        lemma_leads_agree(m, q, a, block, off, lo, hi, lo2, hi2);
        lemma_bytes_agree(m, q, a, led_to(m, block, off), 0, bytes);
    }
}

pub(crate) proof fn lemma_absent_agree(ty: TyV, env: Scope, limit: nat, m: Mem, q: Mem, a: Area, block: Block, off: int)
    requires
        scope_ok(env),
        no_overlap(ty, env),
        span(ty, env, env.len()) is Some,
        agree(m, q, a),
        forall|i: int| off <= i < off + span(ty, env, env.len())->0 ==> #[trigger] a(block, i),
        shows_absent(ty, env, limit, m, block, off),
    ensures
        shows_absent(ty, env, limit, q, block, off),
    decreases limit, ty,
{
    match ty {
        TyV::Opt { disc_off, disc_size, none_discr, some_discr, payload_off, size, inner } => {
            lemma_lengths();
            lemma_bytes_agree(
                m,
                q,
                a,
                block,
                off + disc_off,
                crate::arith::le(none_discr as nat, disc_size as nat),
            );
        },
        TyV::Rec { site, body } => {
            lemma_scope_push(env, site, *body);
            lemma_span_more(*body, env.push((site, *body)), env.len(), env.len() + 1);
            lemma_absent_agree(*body, env.push((site, *body)), limit, m, q, a, block, off);
        },
        TyV::Ref(site) => {
            let i = crate::interp::find_site(env, env.len(), site)->0;
            crate::interp::lemma_find_site(env, env.len(), site);
            lemma_scope_take(env, i as int);
            lemma_absent_agree(env[i as int].1, env.take((i + 1) as int), i, m, q, a, block, off);
        },
        _ => {},
    }
}

/// Where memory holds a document as a type, so does other memory that agrees with it
/// on what the value takes and on the blocks that its pointers lead to.
#[verifier::spinoff_prover]
#[verifier::rlimit(60)]
pub(crate) proof fn lemma_shows_agree(
    ty: TyV,
    env: Scope,
    limit: nat,
    v: JsonV,
    m: Mem,
    q: Mem,
    a: Area,
    block: Block,
    off: int,
    lo: int,
    hi: int,
    lo2: int,
    hi2: int,
)
    requires
        scope_ok(env),
        no_overlap(ty, env),
        span(ty, env, env.len()) is Some,
        agree(m, q, a),
        forall|i: int| off <= i < off + span(ty, env, env.len())->0 ==> #[trigger] a(block, i),
        forall|b: Block, i: int| heap_in(b, lo, hi) ==> #[trigger] a(b, i),
        lo2 <= lo,
        hi <= hi2,
        shows(ty, env, limit, v, m, block, off, lo, hi),
    ensures
        shows(ty, env, limit, v, q, block, off, lo2, hi2),
    decreases v, limit, ty, 0nat,
{
    lemma_lengths();
    match ty {
        TyV::Bool => {
            let b = if v == JsonV::Bool(true) {
                1u8
            } else {
                0u8
            };
            lemma_bytes_agree(m, q, a, block, off, seq![b]);
        },
        TyV::Char => {
            let s = v->Str_0;
            lemma_bytes_agree(
                m,
                q,
                a,
                block,
                off,
                crate::arith::le(crate::interp::first_char(s) as nat, 4),
            );
        },
        TyV::U(n) => {
            let x = crate::json::u128_of(v)->0;
            lemma_bytes_agree(m, q, a, block, off, crate::arith::le(x, n as nat));
        },
        TyV::I(n) => {
            let x = crate::json::i128_of(v)->0;
            lemma_bytes_agree(
                m,
                q,
                a,
                block,
                off,
                crate::arith::le(crate::arith::as_unsigned(x), n as nat),
            );
        },
        TyV::F32 => {
            lemma_float_agree(m, q, a, block, off, v->Num_0, 4);
        },
        TyV::F64 => {
            lemma_float_agree(m, q, a, block, off, v->Num_0, 8);
        },
        TyV::Unit => {},
        TyV::Struct { name, fields } => {
            lemma_in_fields(fields, env, a, block, off);
            lemma_fields_agree(fields, 0, env, v, m, q, a, block, off, lo, hi, lo2, hi2);
        },
        TyV::Tuple { fields } => {
            lemma_in_fields(fields, env, a, block, off);
            let items = v->Array_0;
            assert(decreases_to!(v => v->Array_0));
            lemma_tuple_agree(fields, 0, env, items, m, q, a, block, off, lo, hi, lo2, hi2);
        },
        TyV::Str(seq) => {
            let bytes = vstd::utf8::encode_utf8(v->Str_0);
            lemma_behind_agree(m, q, a, block, off + seq.ptr_off, bytes, lo, hi, lo2, hi2);
            lemma_bytes_agree(m, q, a, block, off + seq.cap_off, crate::interp::word(bytes.len()));
            lemma_bytes_agree(m, q, a, block, off + seq.len_off, crate::interp::word(bytes.len()));
        },
        TyV::StrRef { ptr_off, len_off } => {
            let bytes = vstd::utf8::encode_utf8(v->Str_0);
            lemma_behind_agree(m, q, a, block, off + ptr_off, bytes, lo, hi, lo2, hi2);
            lemma_bytes_agree(m, q, a, block, off + len_off, crate::interp::word(bytes.len()));
        },
        TyV::Vec { elem, elem_size, elem_align, seq } => {
            let items = v->Array_0;
            lemma_bytes_agree(m, q, a, block, off + seq.cap_off, crate::interp::word(items.len()));
            lemma_bytes_agree(m, q, a, block, off + seq.len_off, crate::interp::word(items.len()));
            let size = items.len() * elem_size;
            let align = item_align(elem_align);
            lemma_reaches_agree(m, q, a, block, off + seq.ptr_off, size, align, lo, hi, lo2, hi2);
            assert(decreases_to!(v => v->Array_0));
            lemma_items_agree(
                *elem,
                0,
                env,
                items,
                elem_size,
                m,
                q,
                a,
                reached(m, block, off + seq.ptr_off, size, align),
                lo,
                hi,
                lo2,
                hi2,
            );
        },
        TyV::Opt { disc_off, disc_size, none_discr, some_discr, payload_off, size, inner } => {
            lemma_span_more(*inner, env, env.len(), env.len());
            if v == JsonV::Null {
                lemma_bytes_agree(
                    m,
                    q,
                    a,
                    block,
                    off + disc_off,
                    crate::arith::le(none_discr as nat, disc_size as nat),
                );
            } else {
                lemma_shows_agree(*inner, env, limit, v, m, q, a, block, off + payload_off, lo, hi, lo2, hi2);
                if some_discr is Some {
                    lemma_bytes_agree(
                        m,
                        q,
                        a,
                        block,
                        off + disc_off,
                        crate::arith::le(some_discr->0 as nat, disc_size as nat),
                    );
                }
            }
        },
        TyV::Boxed { inner, size, align } => {
            lemma_reaches_agree(m, q, a, block, off, size as int, align, lo, hi, lo2, hi2);
            lemma_shows_agree(
                *inner,
                env,
                limit,
                v,
                m,
                q,
                a,
                reached(m, block, off, size as int, align),
                0,
                lo,
                hi,
                lo2,
                hi2,
            );
        },
        TyV::Rec { site, body } => {
            lemma_scope_push(env, site, *body);
            lemma_span_more(*body, env.push((site, *body)), env.len(), env.len() + 1);
            lemma_shows_agree(
                *body,
                env.push((site, *body)),
                limit,
                v,
                m,
                q,
                a,
                block,
                off,
                lo,
                hi,
                lo2,
                hi2,
            );
        },
        TyV::Ref(site) => {
            let i = crate::interp::find_site(env, env.len(), site)->0;
            crate::interp::lemma_find_site(env, env.len(), site);
            lemma_scope_take(env, i as int);
            lemma_shows_agree(
                env[i as int].1,
                env.take((i + 1) as int),
                i,
                v,
                m,
                q,
                a,
                block,
                off,
                lo,
                hi,
                lo2,
                hi2,
            );
        },
        TyV::BTreeMap { key, key_size, val, val_size, new_at, insert } => {
            let seq = (*key)->Str_0;
            let kvs = v->Object_0;
            let entries = entries_at(m, block, off);
            assert(a(block, off));
            assert(m(block, off) == q(block, off));
            assert forall|i: int| off <= i < off + MAP_SIZE implies #[trigger] q(block, i) == Some(
                Cell::OfMap(entries, i - off),
            ) by {
                assert(a(block, i));
                assert(m(block, i) == Some(Cell::OfMap(entries, i - off)));
            }
            assert(decreases_to!(v => v->Object_0));
            lemma_entries_agree(seq, *val, env, kvs, entries, m, q, a, lo, hi, lo2, hi2);
        },
        TyV::Unknown(what) => {},
    }
}

/// A string at the start of a block rests on the blocks alone.
pub(crate) proof fn lemma_key_agree(
    m: Mem,
    q: Mem,
    a: Area,
    seq: SeqLayout,
    k: usize,
    name: Seq<char>,
    lo: int,
    hi: int,
    lo2: int,
    hi2: int,
)
    requires
        agree(m, q, a),
        forall|b: Block, i: int| heap_in(b, lo, hi) ==> #[trigger] a(b, i),
        lo2 <= lo,
        hi <= hi2,
        key_at(m, seq, k, name, lo, hi),
    ensures
        key_at(q, seq, k, name, lo2, hi2),
{
    lemma_lengths();
    let bytes = vstd::utf8::encode_utf8(name);
    let heap = Block::Heap(k);
    assert forall|i: int| #[trigger] a(heap, i) by {
        assert(heap_in(heap, lo, hi));
    }
    lemma_behind_agree(m, q, a, heap, seq.ptr_off as int, bytes, lo, hi, lo2, hi2);
    lemma_bytes_agree(m, q, a, heap, 0 + seq.cap_off, crate::interp::word(bytes.len()));
    lemma_bytes_agree(m, q, a, heap, 0 + seq.len_off, crate::interp::word(bytes.len()));
}

pub(crate) proof fn lemma_entries_agree(
    seq: SeqLayout,
    val: TyV,
    env: Scope,
    kvs: Seq<(Seq<char>, JsonV)>,
    entries: Seq<(usize, usize)>,
    m: Mem,
    q: Mem,
    a: Area,
    lo: int,
    hi: int,
    lo2: int,
    hi2: int,
)
    requires
        scope_ok(env),
        no_overlap(val, env),
        span(val, env, env.len()) is Some,
        agree(m, q, a),
        forall|b: Block, i: int| heap_in(b, lo, hi) ==> #[trigger] a(b, i),
        lo2 <= lo,
        hi <= hi2,
        shows_entries(seq, val, env, kvs, entries, m, lo, hi),
    ensures
        shows_entries(seq, val, env, kvs, entries, q, lo2, hi2),
    decreases kvs, 0nat, val, 0nat,
{
    if kvs.len() > 0 {
        assert(decreases_to!(kvs => kvs[0]));
        assert(decreases_to!(kvs[0] => kvs[0].1));
        let (k, v) = entries[0];
        lemma_key_agree(m, q, a, seq, k, kvs[0].0, lo, hi, lo2, hi2);
        let heap = Block::Heap(v);
        assert forall|i: int| #[trigger] a(heap, i) by {
            assert(heap_in(heap, lo, hi));
        }
        lemma_shows_agree(val, env, env.len(), kvs[0].1, m, q, a, heap, 0, lo, hi, lo2, hi2);
        lemma_entries_agree(
            seq,
            val,
            env,
            kvs.drop_first(),
            entries.drop_first(),
            m,
            q,
            a,
            lo,
            hi,
            lo2,
            hi2,
        );
    }
}

proof fn lemma_float_agree(m: Mem, q: Mem, a: Area, block: Block, off: int, text: Seq<char>, width: u8)
    requires
        agree(m, q, a),
        forall|i: int| off <= i < off + width ==> #[trigger] a(block, i),
        float_at(m, block, off, text, width),
    ensures
        float_at(q, block, off, text, width),
{
    assert forall|i: int| off <= i < off + width implies #[trigger] q(block, i) == Some(
        Cell::OfFloat(text, width, i - off),
    ) by {
        assert(a(block, i));
        assert(m(block, i) == Some(Cell::OfFloat(text, width, i - off)));
    }
}

/// An area that has all bytes of a struct has those of its fields.
proof fn lemma_in_fields(fields: Seq<FieldV>, env: Scope, a: Area, block: Block, off: int)
    requires
        span_fields(fields, fields.len(), env, env.len()) is Some,
        forall|i: int|
            off <= i < off + span_fields(fields, fields.len(), env, env.len())->0 ==> #[trigger] a(block, i),
    ensures
        forall|i: int| in_fields(fields, 0, env, off, i) ==> #[trigger] a(block, i),
{
    assert forall|i: int| in_fields(fields, 0, env, off, i) implies #[trigger] a(block, i) by {
        let j = choose|j: int|
            0 <= j < fields.len() && off + (#[trigger] fields[j]).offset <= i < off + fields[j].offset
                + field_span(fields[j], env);
        lemma_field_within(fields, fields.len(), env, j);
    }
}

pub(crate) proof fn lemma_fields_agree(
    fields: Seq<FieldV>,
    k: nat,
    env: Scope,
    v: JsonV,
    m: Mem,
    q: Mem,
    a: Area,
    block: Block,
    off: int,
    lo: int,
    hi: int,
    lo2: int,
    hi2: int,
)
    requires
        scope_ok(env),
        fields_apart(fields, fields.len(), env),
        agree(m, q, a),
        forall|i: int| in_fields(fields, k as int, env, off, i) ==> #[trigger] a(block, i),
        forall|b: Block, i: int| heap_in(b, lo, hi) ==> #[trigger] a(b, i),
        lo2 <= lo,
        hi <= hi2,
        shows_fields(fields, k, env, v, m, block, off, lo, hi),
    ensures
        shows_fields(fields, k, env, v, q, block, off, lo2, hi2),
    decreases v, 0nat, fields, fields.len() - k,
{
    if k < fields.len() {
        let f = fields[k as int];
        lemma_fields_apart(fields, fields.len(), env, k as int);
        assert forall|i: int|
            off + f.offset <= i < off + f.offset + span(f.ty, env, env.len())->0 implies #[trigger] a(block, i) by {
            assert(in_fields(fields, k as int, env, off, i));
        }
        match crate::json::get_of(v, f.name) {
            Some(sub) => {
                crate::json::lemma_get_of(v, f.name);
                lemma_shows_agree(
                    f.ty,
                    env,
                    env.len(),
                    sub,
                    m,
                    q,
                    a,
                    block,
                    off + f.offset,
                    lo,
                    hi,
                    lo2,
                    hi2,
                );
            },
            None => {
                lemma_absent_agree(f.ty, env, env.len(), m, q, a, block, off + f.offset);
            },
        }
        assert forall|i: int| in_fields(fields, (k + 1) as int, env, off, i) implies #[trigger] a(block, i) by {
            lemma_fewer_fields(fields, k as int, env, off, i);
        }
        lemma_fields_agree(fields, k + 1, env, v, m, q, a, block, off, lo, hi, lo2, hi2);
    }
}

proof fn lemma_fewer_fields(fields: Seq<FieldV>, k: int, env: Scope, off: int, i: int)
    requires
        in_fields(fields, k + 1, env, off, i),
    ensures
        in_fields(fields, k, env, off, i),
{
    let j = choose|j: int|
        k + 1 <= j < fields.len() && off + (#[trigger] fields[j]).offset <= i < off + fields[j].offset + field_span(
            fields[j],
            env,
        );
    assert(k <= j < fields.len() && off + fields[j].offset <= i);
}

proof fn lemma_tuple_agree(
    fields: Seq<FieldV>,
    k: nat,
    env: Scope,
    items: Seq<JsonV>,
    m: Mem,
    q: Mem,
    a: Area,
    block: Block,
    off: int,
    lo: int,
    hi: int,
    lo2: int,
    hi2: int,
)
    requires
        scope_ok(env),
        fields_apart(fields, fields.len(), env),
        agree(m, q, a),
        forall|i: int| in_fields(fields, k as int, env, off, i) ==> #[trigger] a(block, i),
        forall|b: Block, i: int| heap_in(b, lo, hi) ==> #[trigger] a(b, i),
        lo2 <= lo,
        hi <= hi2,
        shows_tuple(fields, k, env, items, m, block, off, lo, hi),
    ensures
        shows_tuple(fields, k, env, items, q, block, off, lo2, hi2),
    decreases items, 0nat, fields, fields.len() - k,
{
    if k < fields.len() && k < items.len() {
        let f = fields[k as int];
        lemma_fields_apart(fields, fields.len(), env, k as int);
        assert forall|i: int|
            off + f.offset <= i < off + f.offset + span(f.ty, env, env.len())->0 implies #[trigger] a(block, i) by {
            assert(in_fields(fields, k as int, env, off, i));
        }
        assert(decreases_to!(items => items[k as int]));
        lemma_shows_agree(
            f.ty,
            env,
            env.len(),
            items[k as int],
            m,
            q,
            a,
            block,
            off + f.offset,
            lo,
            hi,
            lo2,
            hi2,
        );
        assert forall|i: int| in_fields(fields, (k + 1) as int, env, off, i) implies #[trigger] a(block, i) by {
            lemma_fewer_fields(fields, k as int, env, off, i);
        }
        lemma_tuple_agree(fields, k + 1, env, items, m, q, a, block, off, lo, hi, lo2, hi2);
    }
}

proof fn lemma_items_agree(
    elem: TyV,
    k: nat,
    env: Scope,
    items: Seq<JsonV>,
    elem_size: u64,
    m: Mem,
    q: Mem,
    a: Area,
    block: Block,
    lo: int,
    hi: int,
    lo2: int,
    hi2: int,
)
    requires
        scope_ok(env),
        no_overlap(elem, env),
        span(elem, env, env.len()) is Some,
        span(elem, env, env.len())->0 <= elem_size,
        agree(m, q, a),
        forall|i: int| k * elem_size <= i < items.len() * elem_size ==> #[trigger] a(block, i),
        forall|b: Block, i: int| heap_in(b, lo, hi) ==> #[trigger] a(b, i),
        lo2 <= lo,
        hi <= hi2,
        shows_items(elem, k, env, items, elem_size, m, block, lo, hi),
    ensures
        shows_items(elem, k, env, items, elem_size, q, block, lo2, hi2),
    decreases items, 0nat, elem, items.len() - k,
{
    if k < items.len() {
        assert(decreases_to!(items => items[k as int]));
        assert(k * elem_size + elem_size <= items.len() * elem_size) by (nonlinear_arith)
            requires
                k + 1 <= items.len(),
                elem_size >= 0,
        ;
        lemma_shows_agree(
            elem,
            env,
            env.len(),
            items[k as int],
            m,
            q,
            a,
            block,
            k * elem_size,
            lo,
            hi,
            lo2,
            hi2,
        );
        assert((k + 1) * elem_size >= k * elem_size) by (nonlinear_arith)
            requires
                elem_size >= 0,
        ;
        lemma_items_agree(elem, k + 1, env, items, elem_size, m, q, a, block, lo, hi, lo2, hi2);
    }
}

// ---------------------------------------------------------------------------
// What binding leaves in memory.
// ---------------------------------------------------------------------------

pub(crate) proof fn lemma_after_one(mem: Mem, op: OpV)
    ensures
        after(mem, seq![op]) == after_one(mem, op),
        after(mem, Seq::<OpV>::empty().push(op)) == after_one(mem, op),
{
    let s = seq![op];
    assert(s.drop_last() =~= Seq::<OpV>::empty());
    assert(s.last() == op);
    assert(after(mem, s.drop_last()) == mem);
    assert(s =~= Seq::<OpV>::empty().push(op));
}

proof fn lemma_after_push(mem: Mem, ops: Seq<OpV>, op: OpV)
    ensures
        after(mem, ops.push(op)) == after_one(after(mem, ops), op),
{
    assert(ops.push(op).drop_last() =~= ops);
}

proof fn lemma_after_two(mem: Mem, a: OpV, b: OpV)
    ensures
        after(mem, seq![a, b]) == after_one(after_one(mem, a), b),
{
    lemma_after_one(mem, a);
    assert(seq![a, b] =~= seq![a].push(b));
    lemma_after_push(mem, seq![a], b);
}

proof fn lemma_after_three(mem: Mem, a: OpV, b: OpV, c: OpV)
    ensures
        after(mem, seq![a, b, c]) == after_one(after_one(after_one(mem, a), b), c),
{
    lemma_after_two(mem, a, b);
    assert(seq![a, b, c] =~= seq![a, b].push(c));
    lemma_after_push(mem, seq![a, b], c);
}

/// Whether memory holds, at a place, what a data pointer is given.
pub open spec fn pointer_at(mem: Mem, block: Block, off: int, to: Result<usize, u64>) -> bool {
    match to {
        Ok(k) => points_at(mem, block, off, k),
        Err(align) => bytes_at(mem, block, off, crate::interp::word(align as nat)),
    }
}

proof fn lemma_word_ops(block: Block, p: u64, to: Result<usize, u64>, c: u64, n: nat)
    ensures
        forall|b: Block, i: int| #[trigger]
            touches(crate::interp::pointer(block, p, to), b, i) == (b == block && p <= i < p + 8),
        forall|b: Block, i: int| #[trigger]
            touches(crate::interp::put(block, c, crate::interp::word(n)), b, i) == (b == block && c <= i < c + 8),
        forall|mem: Mem| pointer_at(
            #[trigger] after_one(mem, crate::interp::pointer(block, p, to)),
            block,
            p as int,
            to,
        ),
        forall|mem: Mem| bytes_at(
            #[trigger] after_one(mem, crate::interp::put(block, c, crate::interp::word(n))),
            block,
            c as int,
            crate::interp::word(n),
        ),
{
    lemma_lengths();
}

pub(crate) proof fn lemma_seq_words(mem: Mem, seq: SeqLayout, block: Block, off: u64, to: Result<usize, u64>, n: nat)
    requires
        words_apart(seq),
        crate::interp::seq_words(seq, block, off, to, n) is Ok,
    ensures
        ({
            let ops = crate::interp::seq_words(seq, block, off, to, n)->Ok_0;
            let m = after(mem, ops);
            &&& ops.len() == 3
            &&& pointer_at(m, block, off + seq.ptr_off, to)
            &&& counts_at(m, seq, block, off as int, n)
            &&& confined(ops, area(block, off as int, span_words(seq), 0, 0))
        }),
{
    lemma_lengths();
    let p = (off + seq.ptr_off) as u64;
    let c = (off + seq.cap_off) as u64;
    let l = (off + seq.len_off) as u64;
    let x = crate::interp::pointer(block, p, to);
    let y = crate::interp::put(block, c, crate::interp::word(n));
    let z = crate::interp::put(block, l, crate::interp::word(n));
    lemma_after_three(mem, x, y, z);
    lemma_word_ops(block, p, to, c, n);
    lemma_word_ops(block, p, to, l, n);
    let m1 = after_one(mem, x);
    let m2 = after_one(m1, y);
    let m3 = after_one(m2, z);
    assert(pointer_at(m1, block, p as int, to));
    assert forall|i: int| p <= i < p + 8 implies #[trigger] m3(block, i) == m1(block, i) by {}
    match to {
        Ok(k) => {
            assert forall|i: int| p <= i < p + 8 implies #[trigger] m3(block, i) == Some(
                Cell::OfPtr(k, i - p),
            ) by {
                assert(m1(block, i) == Some(Cell::OfPtr(k, i - p)));
            }
        },
        Err(align) => {
            let w = crate::interp::word(align as nat);
            assert forall|i: int| p <= i < p + w.len() implies #[trigger] m3(block, i) == Some(
                Cell::Byte(w[i - p]),
            ) by {
                assert(m1(block, i) == Some(Cell::Byte(w[i - p])));
            }
        },
    }
    let w = crate::interp::word(n);
    assert(bytes_at(m2, block, c as int, w));
    assert forall|i: int| c <= i < c + w.len() implies #[trigger] m3(block, i) == Some(Cell::Byte(w[i - c])) by {
        assert(m2(block, i) == Some(Cell::Byte(w[i - c])));
    }
    assert(bytes_at(m3, block, l as int, w));
    let ops = seq![x, y, z];
    assert forall|k: int, b: Block, i: int| 0 <= k < ops.len() && #[trigger] touches(ops[k], b, i) implies area(
        block,
        off as int,
        span_words(seq),
        0,
        0,
    )(b, i) by {
        if k == 0 {
            assert(ops[k] == x);
        } else if k == 1 {
            assert(ops[k] == y);
        } else {
            assert(ops[k] == z);
        }
    }
}

/// Whether a block is there before the `base`th write.
pub open spec fn earlier(block: Block, base: nat) -> bool {
    match block {
        Block::Heap(k) => k < base,
        _ => true,
    }
}

proof fn lemma_copy(mem: Mem, bytes: Seq<u8>, base: nat)
    requires
        base + 2 <= usize::MAX,
        bytes.len() <= u64::MAX,
    ensures
        ({
            let (ops, to) = crate::interp::copy_ops(bytes, base);
            let m = after(mem, ops);
            &&& ops.len() <= 2
            &&& bytes.len() == 0 ==> ops.len() == 0 && to == Err::<usize, u64>(1)
            &&& bytes.len() > 0 ==> ops.len() == 2 && to == Ok::<usize, u64>(base as usize) && bytes_at(
                m,
                Block::Heap(base as usize),
                0,
                bytes,
            )
            &&& confined(ops, area(Block::Dest, 0, 0, base as int, (base + ops.len()) as int))
        }),
{
    if bytes.len() > 0 {
        let heap = Block::Heap(base as usize);
        let x = OpV::Alloc { size: bytes.len() as u64, align: 1 };
        let y = crate::interp::put(heap, 0, bytes);
        lemma_after_two(mem, x, y);
        let ops = seq![x, y];
        assert forall|k: int, b: Block, i: int| 0 <= k < ops.len() && #[trigger] touches(ops[k], b, i) implies area(
            Block::Dest,
            0,
            0,
            base as int,
            (base + 2) as int,
        )(b, i) by {
            if k == 0 {
                assert(ops[k] == x);
            } else {
                assert(ops[k] == y);
            }
        }
    }
}

/// What is put behind a pointer stays when the pointer and the words beside it are
/// written.
proof fn lemma_behind(
    mem: Mem,
    copy: Seq<OpV>,
    words: Seq<OpV>,
    bytes: Seq<u8>,
    to: Result<usize, u64>,
    block: Block,
    p: int,
    n: int,
    off: int,
    base: nat,
)
    requires
        base + 2 <= usize::MAX,
        bytes.len() <= u64::MAX,
        (copy, to) == crate::interp::copy_ops(bytes, base),
        earlier(block, base),
        confined(words, area(block, off, n, 0, 0)),
        pointer_at(after(after(mem, copy), words), block, p, to),
        off <= p,
        p + 8 <= off + n,
    ensures
        behind(
            after(mem, copy + words),
            block,
            p,
            bytes,
            base as int,
            (base + (copy + words).len()) as int,
        ),
        confined(copy + words, area(block, off, n, base as int, (base + (copy + words).len()) as int)),
        after(mem, copy + words) == after(after(mem, copy), words),
{
    lemma_copy(mem, bytes, base);
    lemma_after_join(mem, copy, words);
    let m1 = after(mem, copy);
    let m2 = after(m1, words);
    let all = area(block, off, n, base as int, (base + (copy + words).len()) as int);
    assert forall|b: Block, i: int| #[trigger] area(Block::Dest, 0, 0, base as int, (base + copy.len()) as int)(
        b,
        i,
    ) implies all(b, i) by {}
    lemma_confined_more(copy, area(Block::Dest, 0, 0, base as int, (base + copy.len()) as int), all);
    assert forall|b: Block, i: int| #[trigger] area(block, off, n, 0, 0)(b, i) implies all(b, i) by {}
    lemma_confined_more(words, area(block, off, n, 0, 0), all);
    lemma_confined_join(copy, words, all);
    if bytes.len() > 0 {
        let k = base as usize;
        let heap = Block::Heap(k);
        assert forall|i: int| 0 <= i < bytes.len() implies #[trigger] m2(heap, i) == Some(Cell::Byte(bytes[i - 0])) by {
            lemma_after_rest(m1, words, area(block, off, n, 0, 0), heap, i);
            assert(m1(heap, i) == Some(Cell::Byte(bytes[i - 0])));
        }
        assert(m2(block, p) == Some(Cell::OfPtr(k, 0)));
        assert(target(m2, block, p) == Some(k));
    }
}

pub(crate) proof fn lemma_put(mem: Mem, block: Block, off: u64, bytes: Seq<u8>, n: int, lo: int, hi: int)
    requires
        bytes.len() <= n,
    ensures
        confined(seq![crate::interp::put(block, off, bytes)], area(block, off as int, n, lo, hi)),
        bytes_at(
            after(mem, seq![crate::interp::put(block, off, bytes)]),
            block,
            off as int,
            bytes,
        ),
{
    let op = crate::interp::put(block, off, bytes);
    lemma_after_one(mem, op);
    let ops = seq![op];
    assert forall|k: int, b: Block, i: int| 0 <= k < ops.len() && #[trigger] touches(ops[k], b, i) implies area(
        block,
        off as int,
        n,
        lo,
        hi,
    )(b, i) by {
        assert(ops[k] == op);
    }
}

pub(crate) proof fn lemma_float(mem: Mem, block: Block, off: u64, text: Seq<char>, width: u8, lo: int, hi: int)
    ensures
        confined(
            seq![OpV::Float { block, off, text, width }],
            area(block, off as int, width as int, lo, hi),
        ),
        float_at(
            after(mem, seq![OpV::Float { block, off, text, width }]),
            block,
            off as int,
            text,
            width,
        ),
{
    let op = OpV::Float { block, off, text, width };
    lemma_after_one(mem, op);
    let ops = seq![op];
    assert forall|k: int, b: Block, i: int| 0 <= k < ops.len() && #[trigger] touches(ops[k], b, i) implies area(
        block,
        off as int,
        width as int,
        lo,
        hi,
    )(b, i) by {
        assert(ops[k] == op);
    }
}

pub(crate) proof fn lemma_none(
    mem: Mem,
    disc_off: usize,
    disc_size: u8,
    none_discr: u128,
    size: u64,
    block: Block,
    off: u64,
    n: int,
    lo: int,
    hi: int,
)
    requires
        crate::interp::none_ops(disc_off, disc_size, none_discr, size, block, off) is Ok,
        size <= n,
        disc_off + disc_size <= n,
    ensures
        ({
            let ops = crate::interp::none_ops(disc_off, disc_size, none_discr, size, block, off)->Ok_0;
            &&& none_at(after(mem, ops), disc_off, disc_size, none_discr, block, off as int)
            &&& confined(ops, area(block, off as int, n, lo, hi))
        }),
{
    lemma_lengths();
    let d = (off + disc_off) as u64;
    let bytes = crate::arith::le(none_discr as nat, disc_size as nat);
    let x = OpV::Zero { block, off, len: size };
    let y = crate::interp::put(block, d, bytes);
    let ops = seq![x, y];
    lemma_after_two(mem, x, y);
    let m1 = after_one(mem, x);
    let m2 = after_one(m1, y);
    assert(bytes_at(m2, block, off + disc_off, bytes));
    assert forall|k: int, b: Block, i: int| 0 <= k < ops.len() && #[trigger] touches(ops[k], b, i) implies area(
        block,
        off as int,
        n,
        lo,
        hi,
    )(b, i) by {
        if k == 0 {
            assert(ops[k] == x);
        } else {
            assert(ops[k] == y);
        }
    }
}

pub(crate) proof fn lemma_absent(ty: TyV, env: Scope, limit: nat, block: Block, off: u64, mem: Mem, lo: int, hi: int)
    requires
        scope_ok(env),
        no_overlap(ty, env),
        span(ty, env, env.len()) is Some,
        crate::interp::absent(ty, env, limit, block, off) matches Some(Ok(_)),
    ensures
        ({
            let ops = crate::interp::absent(ty, env, limit, block, off)->0->Ok_0;
            &&& shows_absent(ty, env, limit, after(mem, ops), block, off as int)
            &&& confined(ops, area(block, off as int, span(ty, env, env.len())->0, lo, hi))
        }),
    decreases limit, ty,
{
    match ty {
        TyV::Opt { disc_off, disc_size, none_discr, some_discr, payload_off, size, inner } => {
            lemma_none(
                mem,
                disc_off,
                disc_size,
                none_discr,
                size,
                block,
                off,
                span(ty, env, env.len())->0,
                lo,
                hi,
            );
        },
        TyV::Rec { site, body } => {
            lemma_scope_push(env, site, *body);
            lemma_span_more(*body, env.push((site, *body)), env.len(), env.len() + 1);
            lemma_absent(*body, env.push((site, *body)), limit, block, off, mem, lo, hi);
        },
        TyV::Ref(site) => {
            let i = crate::interp::find_site(env, env.len(), site)->0;
            crate::interp::lemma_find_site(env, env.len(), site);
            lemma_scope_take(env, i as int);
            lemma_absent(env[i as int].1, env.take((i + 1) as int), i, block, off, mem, lo, hi);
        },
        _ => {},
    }
}

/// Whether writes lay a document out as a type: they change nothing but the bytes of
/// the value and blocks of their own, and leave the document there.
pub open spec fn lays(
    ty: TyV,
    env: Scope,
    limit: nat,
    v: JsonV,
    block: Block,
    off: u64,
    base: nat,
    ops: Seq<OpV>,
    mem: Mem,
) -> bool {
    let hi = (base + ops.len()) as int;
    &&& confined(ops, area(block, off as int, span(ty, env, env.len())->0, base as int, hi))
    &&& shows(ty, env, limit, v, after(mem, ops), block, off as int, base as int, hi)
}

#[verifier::spinoff_prover]
#[verifier::rlimit(80)]
proof fn lemma_bind(ty: TyV, env: Scope, limit: nat, v: JsonV, block: Block, off: u64, base: nat, mem: Mem)
    requires
        scope_ok(env),
        no_overlap(ty, env),
        span(ty, env, env.len()) is Some,
        earlier(block, base),
        crate::interp::bind(ty, env, limit, v, block, off, base) is Ok,
        base + crate::interp::bind(ty, env, limit, v, block, off, base)->Ok_0.len() <= usize::MAX,
    ensures
        lays(
            ty,
            env,
            limit,
            v,
            block,
            off,
            base,
            crate::interp::bind(ty, env, limit, v, block, off, base)->Ok_0,
            mem,
        ),
    decreases v, limit, ty, 0nat,
{
    lemma_lengths();
    let ops = crate::interp::bind(ty, env, limit, v, block, off, base)->Ok_0;
    let lo = base as int;
    let hi = (base + ops.len()) as int;
    match ty {
        TyV::Bool => {
            let b = if v == JsonV::Bool(true) {
                1u8
            } else {
                0u8
            };
            lemma_put(mem, block, off, seq![b], 1, lo, hi);
        },
        TyV::Char => {
            let s = v->Str_0;
            lemma_put(
                mem,
                block,
                off,
                crate::arith::le(crate::interp::first_char(s) as nat, 4),
                4,
                lo,
                hi,
            );
        },
        TyV::U(n) => {
            let x = crate::json::u128_of(v)->0;
            lemma_put(mem, block, off, crate::arith::le(x, n as nat), n as int, lo, hi);
        },
        TyV::I(n) => {
            let x = crate::json::i128_of(v)->0;
            lemma_put(
                mem,
                block,
                off,
                crate::arith::le(crate::arith::as_unsigned(x), n as nat),
                n as int,
                lo,
                hi,
            );
        },
        TyV::F32 => lemma_float(mem, block, off, v->Num_0, 4, lo, hi),
        TyV::F64 => lemma_float(mem, block, off, v->Num_0, 8, lo, hi),
        TyV::Unit => {},
        TyV::Struct { name, fields } => {
            lemma_bind_fields(name, fields, 0, env, v, block, off, base, mem);
            lemma_fields_confined(fields, env, block, off as int, ops, lo, hi);
        },
        TyV::Tuple { fields } => {
            assert(decreases_to!(v => v->Array_0));
            lemma_bind_tuple(fields, 0, env, v->Array_0, block, off, base, mem);
            lemma_fields_confined(fields, env, block, off as int, ops, lo, hi);
        },
        TyV::Str(seq) => lemma_bind_str(seq, env, limit, v->Str_0, block, off, base, mem),
        TyV::StrRef { ptr_off, len_off } => lemma_bind_str_ref(
            ptr_off,
            len_off,
            env,
            limit,
            v->Str_0,
            block,
            off,
            base,
            mem,
        ),
        TyV::Vec { elem, elem_size, elem_align, seq } => {
            let items = v->Array_0;
            let align = item_align(elem_align);
            assert(decreases_to!(v => v->Array_0));
            let size = items.len() * elem_size;
            let first = crate::interp::home_ops(size, align);
            let heap = crate::interp::home(size, align, base);
            let to = crate::interp::home_ptr(size, align, base);
            let rest = crate::interp::bind_items(*elem, 0, env, items, elem_size, heap, base + first.len())->Ok_0;
            let words = crate::interp::seq_words(seq, block, off, to, items.len())->Ok_0;
            assert(ops == first + rest + words);
            lemma_seq_words(after(after(mem, first), rest), seq, block, off, to, items.len());
            lemma_bind_items(*elem, 0, env, items, elem_size, heap, base + first.len(), after(mem, first));
            lemma_bind_vec(*elem, elem_size, elem_align, seq, env, items, block, off, base, mem, rest, words);
        },
        TyV::Opt { disc_off, disc_size, none_discr, some_discr, payload_off, size, inner } => {
            let n = span(ty, env, env.len())->0;
            lemma_span_more(*inner, env, env.len(), env.len());
            if v == JsonV::Null {
                lemma_none(mem, disc_off, disc_size, none_discr, size, block, off, n, lo, hi);
            } else {
                let p = (off + payload_off) as u64;
                let some = crate::interp::bind(*inner, env, limit, v, block, p, base)->Ok_0;
                lemma_bind(*inner, env, limit, v, block, p, base, mem);
                lemma_bind_some(ty, env, limit, v, block, off, base, mem, some, ops);
            }
        },
        TyV::Boxed { inner, size, align } => {
            let heap = crate::interp::home(size as int, align, base);
            let first = crate::interp::home_ops(size as int, align);
            let rest = crate::interp::bind(*inner, env, limit, v, heap, 0, base + first.len())->Ok_0;
            let last = crate::interp::pointer(block, off, crate::interp::home_ptr(size as int, align, base));
            assert(ops == first + rest + seq![last]);
            lemma_bind(*inner, env, limit, v, heap, 0, base + first.len(), after(mem, first));
            lemma_bind_boxed(*inner, size, align, env, limit, v, block, off, base, mem, rest);
        },
        TyV::Rec { site, body } => {
            lemma_scope_push(env, site, *body);
            lemma_span_more(*body, env.push((site, *body)), env.len(), env.len() + 1);
            lemma_bind(*body, env.push((site, *body)), limit, v, block, off, base, mem);
        },
        TyV::Ref(site) => {
            let i = crate::interp::find_site(env, env.len(), site)->0;
            crate::interp::lemma_find_site(env, env.len(), site);
            lemma_scope_take(env, i as int);
            lemma_bind(env[i as int].1, env.take((i + 1) as int), i, v, block, off, base, mem);
        },
        TyV::BTreeMap { .. } => {},
        TyV::Unknown(what) => {},
    }
}

/// An `Option` with a value: the value, and a discriminant where there is one.
#[verifier::spinoff_prover]
pub(crate) proof fn lemma_bind_some(
    ty: TyV,
    env: Scope,
    limit: nat,
    v: JsonV,
    block: Block,
    off: u64,
    base: nat,
    mem: Mem,
    some: Seq<OpV>,
    ops: Seq<OpV>,
)
    requires
        ty is Opt,
        scope_ok(env),
        no_overlap(ty, env),
        span(ty, env, env.len()) is Some,
        v != JsonV::Null,
        earlier(block, base),
        off + ty->payload_off <= u64::MAX,
        lays(*ty->Opt_inner, env, limit, v, block, (off + ty->payload_off) as u64, base, some, mem),
        match ty->some_discr {
            None => ops == some,
            Some(discr) => off + ty->disc_off <= u64::MAX && ops == some.push(
                crate::interp::put(
                    block,
                    (off + ty->disc_off) as u64,
                    crate::arith::le(discr as nat, ty->disc_size as nat),
                ),
            ),
        },
    ensures
        lays(ty, env, limit, v, block, off, base, ops, mem),
{
    lemma_lengths();
    let inner = *ty->Opt_inner;
    let disc_size = ty->disc_size;
    let p = (off + ty->payload_off) as u64;
    let lo = base as int;
    let hi = (base + ops.len()) as int;
    let n = span(ty, env, env.len())->0;
    let k = span(inner, env, env.len())->0;
    lemma_span_more(inner, env, env.len(), env.len());
    let part = area(block, p as int, k, lo, (base + some.len()) as int);
    let all = area(block, off as int, n, lo, hi);
    assert forall|b: Block, i: int| #[trigger] part(b, i) implies all(b, i) by {}
    lemma_confined_more(some, part, all);
    if let Some(discr) = ty->some_discr {
        let d = (off + ty->disc_off) as u64;
        let bytes = crate::arith::le(discr as nat, disc_size as nat);
        let op = crate::interp::put(block, d, bytes);
        let m1 = after(mem, some);
        lemma_after_push(mem, some, op);
        lemma_put(m1, block, d, bytes, disc_size as int, 0, 0);
        lemma_after_one(m1, op);
        let only = area(block, d as int, disc_size as int, 0, 0);
        assert forall|b: Block, i: int| !(#[trigger] only(b, i) && #[trigger] part(b, i)) by {}
        lemma_agree_after(m1, seq![op], only, part);
        lemma_shows_agree(
            inner,
            env,
            limit,
            v,
            m1,
            after(mem, ops),
            part,
            block,
            p as int,
            lo,
            (base + some.len()) as int,
            lo,
            hi,
        );
        assert forall|b: Block, i: int| #[trigger] only(b, i) implies all(b, i) by {}
        lemma_confined_more(seq![op], only, all);
        lemma_confined_join(some, seq![op], all);
        assert(some + seq![op] =~= ops);
    }
}

/// The bytes of a struct's fields are bytes of the struct.
pub(crate) proof fn lemma_fields_confined(fields: Seq<FieldV>, env: Scope, block: Block, off: int, ops: Seq<OpV>, lo: int, hi: int)
    requires
        span_fields(fields, fields.len(), env, env.len()) is Some,
        confined(ops, fields_area(fields, 0, env, block, off, lo, hi)),
    ensures
        confined(ops, area(block, off, span_fields(fields, fields.len(), env, env.len())->0, lo, hi)),
{
    let all = area(block, off, span_fields(fields, fields.len(), env, env.len())->0, lo, hi);
    let part = fields_area(fields, 0, env, block, off, lo, hi);
    assert forall|b: Block, i: int| #[trigger] part(b, i) implies all(b, i) by {
        if b == block && in_fields(fields, 0, env, off, i) {
            let j = choose|j: int|
                0 <= j < fields.len() && off + (#[trigger] fields[j]).offset <= i < off + fields[j].offset
                    + field_span(fields[j], env);
            lemma_field_within(fields, fields.len(), env, j);
        }
    }
    lemma_confined_more(ops, part, all);
}

pub(crate) proof fn lemma_bind_str(
    seq: SeqLayout,
    env: Scope,
    limit: nat,
    s: Seq<char>,
    block: Block,
    off: u64,
    base: nat,
    mem: Mem,
)
    requires
        words_apart(seq),
        earlier(block, base),
        crate::interp::bind(TyV::Str(seq), env, limit, JsonV::Str(s), block, off, base) is Ok,
        base + crate::interp::bind(TyV::Str(seq), env, limit, JsonV::Str(s), block, off, base)->Ok_0.len()
            <= usize::MAX,
    ensures
        lays(
            TyV::Str(seq),
            env,
            limit,
            JsonV::Str(s),
            block,
            off,
            base,
            crate::interp::bind(TyV::Str(seq), env, limit, JsonV::Str(s), block, off, base)->Ok_0,
            mem,
        ),
{
    let bytes = vstd::utf8::encode_utf8(s);
    let (copy, to) = crate::interp::copy_ops(bytes, base);
    let words = crate::interp::seq_words(seq, block, off, to, bytes.len())->Ok_0;
    lemma_seq_words(after(mem, copy), seq, block, off, to, bytes.len());
    lemma_behind(
        mem,
        copy,
        words,
        bytes,
        to,
        block,
        off + seq.ptr_off,
        span_words(seq),
        off as int,
        base,
    );
}

pub(crate) proof fn lemma_bind_str_ref(
    ptr_off: usize,
    len_off: usize,
    env: Scope,
    limit: nat,
    s: Seq<char>,
    block: Block,
    off: u64,
    base: nat,
    mem: Mem,
)
    requires
        apart(ptr_off as int, 8, len_off as int, 8),
        earlier(block, base),
        crate::interp::bind(TyV::StrRef { ptr_off, len_off }, env, limit, JsonV::Str(s), block, off, base) is Ok,
        base + crate::interp::bind(
            TyV::StrRef { ptr_off, len_off },
            env,
            limit,
            JsonV::Str(s),
            block,
            off,
            base,
        )->Ok_0.len() <= usize::MAX,
    ensures
        lays(
            TyV::StrRef { ptr_off, len_off },
            env,
            limit,
            JsonV::Str(s),
            block,
            off,
            base,
            crate::interp::bind(
                TyV::StrRef { ptr_off, len_off },
                env,
                limit,
                JsonV::Str(s),
                block,
                off,
                base,
            )->Ok_0,
            mem,
        ),
{
    lemma_lengths();
    let bytes = vstd::utf8::encode_utf8(s);
    let (copy, to) = crate::interp::copy_ops(bytes, base);
    let p = (off + ptr_off) as u64;
    let l = (off + len_off) as u64;
    let x = crate::interp::pointer(block, p, to);
    let y = crate::interp::put(block, l, crate::interp::word(bytes.len()));
    let words = seq![x, y];
    let n = larger(ptr_off as int, len_off as int) + 8;
    let m0 = after(mem, copy);
    lemma_word_ops(block, p, to, l, bytes.len());
    lemma_after_two(m0, x, y);
    let m1 = after_one(m0, x);
    let m2 = after_one(m1, y);
    assert(pointer_at(m1, block, p as int, to));
    match to {
        Ok(k) => {
            assert forall|i: int| p <= i < p + 8 implies #[trigger] m2(block, i) == Some(Cell::OfPtr(k, i - p)) by {
                assert(m1(block, i) == Some(Cell::OfPtr(k, i - p)));
            }
        },
        Err(align) => {
            let w = crate::interp::word(align as nat);
            assert forall|i: int| p <= i < p + w.len() implies #[trigger] m2(block, i) == Some(
                Cell::Byte(w[i - p]),
            ) by {
                assert(m1(block, i) == Some(Cell::Byte(w[i - p])));
            }
        },
    }
    assert(bytes_at(m2, block, l as int, crate::interp::word(bytes.len())));
    assert forall|k: int, b: Block, i: int| 0 <= k < words.len() && #[trigger] touches(words[k], b, i) implies area(
        block,
        off as int,
        n,
        0,
        0,
    )(b, i) by {
        if k == 0 {
            assert(words[k] == x);
        } else {
            assert(words[k] == y);
        }
    }
    lemma_behind(mem, copy, words, bytes, to, block, p as int, n, off as int, base);
}

/// The write of a pointer, and what it leaves.
pub(crate) proof fn lemma_pointer(mem: Mem, block: Block, off: u64, to: Result<usize, u64>)
    ensures
        pointer_at(after_one(mem, crate::interp::pointer(block, off, to)), block, off as int, to),
        confined(seq![crate::interp::pointer(block, off, to)], area(block, off as int, 8, 0, 0)),
{
    lemma_word_ops(block, off, to, off, 0);
    let last = crate::interp::pointer(block, off, to);
    let s = seq![last];
    let only = area(block, off as int, 8, 0, 0);
    assert forall|k: int, b: Block, i: int| 0 <= k < s.len() && #[trigger] touches(s[k], b, i) implies only(b, i) by {
        assert(s[k] == last);
    }
}

/// A pointer to what is in a block of its own, or nowhere, leads there.
proof fn lemma_reaches(mem: Mem, block: Block, off: int, size: int, align: u64, base: nat, hi: int)
    requires
        base < usize::MAX,
        base < hi,
        pointer_at(mem, block, off, crate::interp::home_ptr(size, align, base)),
    ensures
        reaches(mem, block, off, size, align, base as int, hi),
        reached(mem, block, off, size, align) == crate::interp::home(size, align, base),
{
    if size != 0 {
        assert(mem(block, off) == Some(Cell::OfPtr(base as usize, 0)));
        assert(target(mem, block, off) == Some(base as usize));
    }
}

/// Making a block changes nothing.
proof fn lemma_home(mem: Mem, size: int, align: u64, a: Area)
    ensures
        confined(crate::interp::home_ops(size, align), a),
        crate::interp::home_ops(size, align).len() <= 1,
{
    let ops = crate::interp::home_ops(size, align);
    assert forall|k: int, b: Block, i: int| 0 <= k < ops.len() && #[trigger] touches(ops[k], b, i) implies a(b, i) by {
        assert(ops[k] is Alloc);
    }
}

#[verifier::spinoff_prover]
pub(crate) proof fn lemma_bind_boxed(
    inner: TyV,
    size: u64,
    align: u64,
    env: Scope,
    limit: nat,
    v: JsonV,
    block: Block,
    off: u64,
    base: nat,
    mem: Mem,
    rest: Seq<OpV>,
)
    requires
        scope_ok(env),
        no_overlap(TyV::Boxed { inner: Box::new(inner), size, align }, env),
        earlier(block, base),
        base + crate::interp::home_ops(size as int, align).len() + rest.len() + 1 <= usize::MAX,
        ({
            let first = crate::interp::home_ops(size as int, align);
            let heap = crate::interp::home(size as int, align, base);
            lays(inner, env, limit, v, heap, 0, base + first.len(), rest, after(mem, first))
        }),
    ensures
        lays(
            TyV::Boxed { inner: Box::new(inner), size, align },
            env,
            limit,
            v,
            block,
            off,
            base,
            crate::interp::home_ops(size as int, align) + rest + seq![
                crate::interp::pointer(block, off, crate::interp::home_ptr(size as int, align, base)),
            ],
            mem,
        ),
{
    let first = crate::interp::home_ops(size as int, align);
    let heap = crate::interp::home(size as int, align, base);
    let last = crate::interp::pointer(block, off, crate::interp::home_ptr(size as int, align, base));
    let ops = first + rest + seq![last];
    let lo = base as int;
    let next = (base + first.len()) as int;
    let hi = (base + ops.len()) as int;
    let m1 = after(mem, first);
    let m2 = after(m1, rest);
    let m3 = after_one(m2, last);
    lemma_after_join(mem, first, rest);
    lemma_after_join(mem, first + rest, seq![last]);
    lemma_after_one(m2, last);
    let n = span(inner, env, env.len())->0;
    let part = area(heap, 0, n, next, next + rest.len());
    let all = area(block, off as int, 8, lo, hi);
    assert forall|b: Block, i: int| #[trigger] part(b, i) implies all(b, i) by {}
    lemma_confined_more(rest, part, all);
    lemma_home(mem, size as int, align, all);
    let only = area(block, off as int, 8, 0, 0);
    lemma_pointer(m2, block, off, crate::interp::home_ptr(size as int, align, base));
    assert forall|b: Block, i: int| #[trigger] only(b, i) implies all(b, i) by {}
    lemma_confined_more(seq![last], only, all);
    lemma_confined_join(first, rest, all);
    lemma_confined_join(first + rest, seq![last], all);
    assert forall|b: Block, i: int| !(#[trigger] only(b, i) && #[trigger] part(b, i)) by {}
    lemma_agree_after(m2, seq![last], only, part);
    lemma_shows_agree(inner, env, limit, v, m2, m3, part, heap, 0, next, next + rest.len(), lo, hi);
    lemma_reaches(m3, block, off as int, size as int, align, base, hi);
}

#[verifier::spinoff_prover]
pub(crate) proof fn lemma_bind_vec(
    elem: TyV,
    elem_size: u64,
    elem_align: u64,
    seq: SeqLayout,
    env: Scope,
    items: Seq<JsonV>,
    block: Block,
    off: u64,
    base: nat,
    mem: Mem,
    rest: Seq<OpV>,
    words: Seq<OpV>,
)
    requires
        scope_ok(env),
        no_overlap(elem, env),
        span(elem, env, env.len()) is Some,
        span(elem, env, env.len())->0 <= elem_size,
        words_apart(seq),
        earlier(block, base),
        base + crate::interp::home_ops(items.len() * elem_size, item_align(elem_align)).len() + rest.len() + 3
            <= usize::MAX,
        words.len() == 3,
        confined(words, area(block, off as int, span_words(seq), 0, 0)),
        ({
            let size = items.len() * elem_size;
            let align = item_align(elem_align);
            let first = crate::interp::home_ops(size, align);
            let heap = crate::interp::home(size, align, base);
            let m = after(after(after(mem, first), rest), words);
            &&& pointer_at(m, block, off + seq.ptr_off, crate::interp::home_ptr(size, align, base))
            &&& counts_at(m, seq, block, off as int, items.len())
            &&& lays_items(elem, 0, env, items, elem_size, heap, base + first.len(), rest, after(mem, first))
        }),
    ensures
        ({
            let size = items.len() * elem_size;
            let align = item_align(elem_align);
            let ops = crate::interp::home_ops(size, align) + rest + words;
            let hi = (base + ops.len()) as int;
            let m = after(mem, ops);
            &&& confined(ops, area(block, off as int, span_words(seq), base as int, hi))
            &&& counts_at(m, seq, block, off as int, items.len())
            &&& reaches(m, block, off + seq.ptr_off, size, align, base as int, hi)
            &&& shows_items(
                elem,
                0,
                env,
                items,
                elem_size,
                m,
                reached(m, block, off + seq.ptr_off, size, align),
                base as int,
                hi,
            )
        }),
{
    let size = items.len() * elem_size;
    let align = item_align(elem_align);
    let first = crate::interp::home_ops(size, align);
    let heap = crate::interp::home(size, align, base);
    let ops = first + rest + words;
    let lo = base as int;
    let next = (base + first.len()) as int;
    let hi = (base + ops.len()) as int;
    let m1 = after(mem, first);
    let m2 = after(m1, rest);
    let m3 = after(m2, words);
    lemma_after_join(mem, first, rest);
    lemma_after_join(mem, first + rest, words);
    let part = items_area(heap, 0, size, next, next + rest.len());
    let all = area(block, off as int, span_words(seq), lo, hi);
    let only = area(block, off as int, span_words(seq), 0, 0);
    lemma_home(mem, size, align, all);
    assert forall|b: Block, i: int| #[trigger] part(b, i) implies all(b, i) by {}
    lemma_confined_more(rest, part, all);
    assert forall|b: Block, i: int| #[trigger] only(b, i) implies all(b, i) by {}
    lemma_confined_more(words, only, all);
    lemma_confined_join(first, rest, all);
    lemma_confined_join(first + rest, words, all);
    assert forall|b: Block, i: int| !(#[trigger] only(b, i) && #[trigger] part(b, i)) by {}
    lemma_agree_after(m2, words, only, part);
    lemma_items_agree(elem, 0, env, items, elem_size, m2, m3, part, heap, next, next + rest.len(), lo, hi);
    lemma_reaches(m3, block, off + seq.ptr_off, size, align, base, hi);
}

/// Some bytes of a block, and some allocated blocks.
pub open spec fn items_area(block: Block, from: int, to: int, lo: int, hi: int) -> Area {
    |b: Block, i: int| (b == block && from <= i < to) || heap_in(b, lo, hi)
}

/// Whether writes lay items out, from the `k`th on, one after the other in a block.
pub open spec fn lays_items(
    elem: TyV,
    k: nat,
    env: Scope,
    items: Seq<JsonV>,
    elem_size: u64,
    heap: Block,
    base: nat,
    ops: Seq<OpV>,
    mem: Mem,
) -> bool {
    let hi = (base + ops.len()) as int;
    &&& confined(ops, items_area(heap, k * elem_size, items.len() * elem_size, base as int, hi))
    &&& shows_items(elem, k, env, items, elem_size, after(mem, ops), heap, base as int, hi)
}

#[verifier::spinoff_prover]
proof fn lemma_bind_items(
    elem: TyV,
    k: nat,
    env: Scope,
    items: Seq<JsonV>,
    elem_size: u64,
    heap: Block,
    base: nat,
    mem: Mem,
)
    requires
        scope_ok(env),
        no_overlap(elem, env),
        span(elem, env, env.len()) is Some,
        span(elem, env, env.len())->0 <= elem_size,
        earlier(heap, base),
        k <= items.len(),
        items.len() * elem_size <= u64::MAX,
        crate::interp::bind_items(elem, k, env, items, elem_size, heap, base) is Ok,
        base + crate::interp::bind_items(elem, k, env, items, elem_size, heap, base)->Ok_0.len() <= usize::MAX,
    ensures
        lays_items(
            elem,
            k,
            env,
            items,
            elem_size,
            heap,
            base,
            crate::interp::bind_items(elem, k, env, items, elem_size, heap, base)->Ok_0,
            mem,
        ),
    decreases items, 0nat, elem, items.len() - k,
{
    if k < items.len() {
        let block = heap;
        let at = k * elem_size;
        assert(0 <= at && at <= items.len() * elem_size) by (nonlinear_arith)
            requires
                at == k * elem_size,
                0 <= k < items.len(),
                elem_size >= 0,
        ;
        assert((k + 1) * elem_size == at + elem_size) by (nonlinear_arith)
            requires
                at == k * elem_size,
        ;
        assert(decreases_to!(items => items[k as int]));
        let first = crate::interp::bind(elem, env, env.len(), items[k as int], block, at as u64, base)->Ok_0;
        let rest = crate::interp::bind_items(
            elem,
            k + 1,
            env,
            items,
            elem_size,
            heap,
            base + first.len(),
        )->Ok_0;
        lemma_bind(elem, env, env.len(), items[k as int], block, at as u64, base, mem);
        lemma_bind_items(elem, k + 1, env, items, elem_size, heap, base + first.len(), after(mem, first));
        lemma_items_join(elem, k, env, items, elem_size, heap, base, mem, first, rest);
    }
}

/// An item, and then those after it.
#[verifier::spinoff_prover]
pub(crate) proof fn lemma_items_join(
    elem: TyV,
    k: nat,
    env: Scope,
    items: Seq<JsonV>,
    elem_size: u64,
    heap: Block,
    base: nat,
    mem: Mem,
    first: Seq<OpV>,
    rest: Seq<OpV>,
)
    requires
        scope_ok(env),
        no_overlap(elem, env),
        span(elem, env, env.len()) is Some,
        span(elem, env, env.len())->0 <= elem_size,
        earlier(heap, base),
        k < items.len(),
        items.len() * elem_size <= u64::MAX,
        lays(
            elem,
            env,
            env.len(),
            items[k as int],
            heap,
            (k * elem_size) as u64,
            base,
            first,
            mem,
        ),
        lays_items(elem, k + 1, env, items, elem_size, heap, base + first.len(), rest, after(mem, first)),
    ensures
        lays_items(elem, k, env, items, elem_size, heap, base, first + rest, mem),
{
    let block = heap;
    let at = k * elem_size;
    assert(0 <= at && at <= items.len() * elem_size) by (nonlinear_arith)
        requires
            at == k * elem_size,
            0 <= k < items.len(),
            elem_size >= 0,
    ;
    assert((k + 1) * elem_size == at + elem_size) by (nonlinear_arith)
        requires
            at == k * elem_size,
    ;
    let ops = first + rest;
    let n = span(elem, env, env.len())->0;
    let lo = base as int;
    let mid = (base + first.len()) as int;
    let hi = (base + ops.len()) as int;
    let m1 = after(mem, first);
    lemma_after_join(mem, first, rest);
    let m2 = after(m1, rest);
    let one = area(block, at, n, lo, mid);
    assert(at + elem_size <= items.len() * elem_size) by (nonlinear_arith)
        requires
            at == k * elem_size,
            k + 1 <= items.len(),
            elem_size >= 0,
    ;
    let to = items.len() * elem_size;
    let more = items_area(block, at + elem_size, to, mid, hi);
    let all = items_area(block, at, to, lo, hi);
    assert forall|b: Block, i: int| #[trigger] one(b, i) implies all(b, i) by {}
    assert forall|b: Block, i: int| #[trigger] more(b, i) implies all(b, i) by {}
    lemma_confined_more(first, one, all);
    lemma_confined_more(rest, more, all);
    lemma_confined_join(first, rest, all);
    assert forall|b: Block, i: int| !(#[trigger] more(b, i) && #[trigger] one(b, i)) by {}
    lemma_agree_after(m1, rest, more, one);
    lemma_shows_agree(elem, env, env.len(), items[k as int], m1, m2, one, block, at, lo, mid, lo, hi);
    let whole = |b: Block, i: int| true;
    assert(agree(m2, m2, whole));
    lemma_items_agree(elem, k + 1, env, items, elem_size, m2, m2, whole, block, mid, hi, lo, hi);
}

/// Whether writes lay a struct's fields out, from the `k`th on.
pub open spec fn lays_fields(
    fields: Seq<FieldV>,
    k: nat,
    env: Scope,
    v: JsonV,
    block: Block,
    off: u64,
    base: nat,
    ops: Seq<OpV>,
    mem: Mem,
) -> bool {
    let hi = (base + ops.len()) as int;
    &&& confined(ops, fields_area(fields, k as int, env, block, off as int, base as int, hi))
    &&& shows_fields(fields, k, env, v, after(mem, ops), block, off as int, base as int, hi)
}

/// The bytes of one field are not among those of the fields after it.
pub(crate) proof fn lemma_field_alone(fields: Seq<FieldV>, k: int, env: Scope, block: Block, off: int, lo: int, mid: int, hi: int)
    requires
        0 <= k < fields.len(),
        fields_apart(fields, fields.len(), env),
        lo <= mid <= hi,
        earlier(block, lo as nat),
        0 <= lo,
    ensures
        ({
            let f = fields[k];
            let one = area(block, off + f.offset, field_span(f, env), lo, mid);
            let more = fields_area(fields, k + 1, env, block, off, mid, hi);
            let all = fields_area(fields, k, env, block, off, lo, hi);
            &&& forall|b: Block, i: int| #[trigger] one(b, i) ==> all(b, i)
            &&& forall|b: Block, i: int| #[trigger] more(b, i) ==> all(b, i)
            &&& forall|b: Block, i: int| !(#[trigger] more(b, i) && #[trigger] one(b, i))
        }),
{
    let f = fields[k];
    let one = area(block, off + f.offset, field_span(f, env), lo, mid);
    let more = fields_area(fields, k + 1, env, block, off, mid, hi);
    let all = fields_area(fields, k, env, block, off, lo, hi);
    lemma_fields_apart(fields, fields.len(), env, k);
    assert forall|b: Block, i: int| #[trigger] one(b, i) implies all(b, i) by {
        if b == block && off + f.offset <= i < off + f.offset + field_span(f, env) {
            assert(in_fields(fields, k, env, off, i));
        }
    }
    assert forall|b: Block, i: int| #[trigger] more(b, i) implies all(b, i) by {
        if b == block && in_fields(fields, k + 1, env, off, i) {
            lemma_fewer_fields(fields, k, env, off, i);
        }
    }
    assert forall|b: Block, i: int| !(#[trigger] more(b, i) && #[trigger] one(b, i)) by {
        if more(b, i) && one(b, i) {
            if b == block && in_fields(fields, k + 1, env, off, i) {
                let j = choose|j: int|
                    k + 1 <= j < fields.len() && off + (#[trigger] fields[j]).offset <= i < off
                        + fields[j].offset + field_span(fields[j], env);
                assert(apart(
                    fields[j].offset as int,
                    field_span(fields[j], env),
                    f.offset as int,
                    field_span(f, env),
                ));
            }
        }
    }
}

#[verifier::spinoff_prover]
#[verifier::rlimit(40)]
proof fn lemma_bind_fields(
    name: Seq<char>,
    fields: Seq<FieldV>,
    k: nat,
    env: Scope,
    v: JsonV,
    block: Block,
    off: u64,
    base: nat,
    mem: Mem,
)
    requires
        scope_ok(env),
        fields_apart(fields, fields.len(), env),
        earlier(block, base),
        crate::interp::bind_fields(name, fields, k, env, v, block, off, base) is Ok,
        base + crate::interp::bind_fields(name, fields, k, env, v, block, off, base)->Ok_0.len() <= usize::MAX,
    ensures
        lays_fields(
            fields,
            k,
            env,
            v,
            block,
            off,
            base,
            crate::interp::bind_fields(name, fields, k, env, v, block, off, base)->Ok_0,
            mem,
        ),
    decreases v, 0nat, fields, fields.len() - k,
{
    if k < fields.len() {
        let f = fields[k as int];
        let at = (off + f.offset) as u64;
        lemma_fields_apart(fields, fields.len(), env, k as int);
        let sub = crate::json::get_of(v, f.name);
        let first = match sub {
            Some(s) => crate::interp::bind(f.ty, env, env.len(), s, block, at, base)->Ok_0,
            None => crate::interp::absent(f.ty, env, env.len(), block, at)->0->Ok_0,
        };
        let rest = crate::interp::bind_fields(
            name,
            fields,
            k + 1,
            env,
            v,
            block,
            off,
            base + first.len(),
        )->Ok_0;
        let ops = first + rest;
        let lo = base as int;
        let mid = (base + first.len()) as int;
        let hi = (base + ops.len()) as int;
        let m1 = after(mem, first);
        let m2 = after(m1, rest);
        let one = area(block, off + f.offset, field_span(f, env), lo, mid);
        let more = fields_area(fields, (k + 1) as int, env, block, off as int, mid, hi);
        let all = fields_area(fields, k as int, env, block, off as int, lo, hi);
        match sub {
            Some(s) => {
                crate::json::lemma_get_of(v, f.name);
                lemma_bind(f.ty, env, env.len(), s, block, at, base, mem);
            },
            None => {
                lemma_absent(f.ty, env, env.len(), block, at, mem, lo, mid);
            },
        }
        lemma_bind_fields(name, fields, k + 1, env, v, block, off, base + first.len(), m1);
        lemma_after_join(mem, first, rest);
        lemma_field_alone(fields, k as int, env, block, off as int, lo, mid, hi);
        lemma_confined_more(first, one, all);
        lemma_confined_more(rest, more, all);
        lemma_confined_join(first, rest, all);
        lemma_agree_after(m1, rest, more, one);
        match sub {
            Some(s) => {
                lemma_shows_agree(
                    f.ty,
                    env,
                    env.len(),
                    s,
                    m1,
                    m2,
                    one,
                    block,
                    at as int,
                    lo,
                    mid,
                    lo,
                    hi,
                );
            },
            None => {
                lemma_absent_agree(f.ty, env, env.len(), m1, m2, one, block, at as int);
            },
        }
        let whole = |b: Block, i: int| true;
        assert(agree(m2, m2, whole));
        lemma_fields_agree(fields, k + 1, env, v, m2, m2, whole, block, off as int, mid, hi, lo, hi);
    }
}

/// Whether writes lay a tuple's fields out, from the `k`th on.
pub open spec fn lays_tuple(
    fields: Seq<FieldV>,
    k: nat,
    env: Scope,
    items: Seq<JsonV>,
    block: Block,
    off: u64,
    base: nat,
    ops: Seq<OpV>,
    mem: Mem,
) -> bool {
    let hi = (base + ops.len()) as int;
    &&& confined(ops, fields_area(fields, k as int, env, block, off as int, base as int, hi))
    &&& shows_tuple(fields, k, env, items, after(mem, ops), block, off as int, base as int, hi)
}

#[verifier::spinoff_prover]
#[verifier::rlimit(40)]
proof fn lemma_bind_tuple(
    fields: Seq<FieldV>,
    k: nat,
    env: Scope,
    items: Seq<JsonV>,
    block: Block,
    off: u64,
    base: nat,
    mem: Mem,
)
    requires
        scope_ok(env),
        fields_apart(fields, fields.len(), env),
        earlier(block, base),
        crate::interp::bind_tuple(fields, k, env, items, block, off, base) is Ok,
        base + crate::interp::bind_tuple(fields, k, env, items, block, off, base)->Ok_0.len() <= usize::MAX,
    ensures
        lays_tuple(
            fields,
            k,
            env,
            items,
            block,
            off,
            base,
            crate::interp::bind_tuple(fields, k, env, items, block, off, base)->Ok_0,
            mem,
        ),
    decreases items, 0nat, fields, fields.len() - k,
{
    if k < fields.len() && k < items.len() {
        let f = fields[k as int];
        let at = (off + f.offset) as u64;
        let v = items[k as int];
        lemma_fields_apart(fields, fields.len(), env, k as int);
        assert(decreases_to!(items => items[k as int]));
        let first = crate::interp::bind(f.ty, env, env.len(), v, block, at, base)->Ok_0;
        let rest = crate::interp::bind_tuple(fields, k + 1, env, items, block, off, base + first.len())->Ok_0;
        lemma_bind(f.ty, env, env.len(), v, block, at, base, mem);
        lemma_bind_tuple(fields, k + 1, env, items, block, off, base + first.len(), after(mem, first));
        lemma_tuple_join(fields, k, env, items, block, off, base, mem, first, rest);
    }
}

/// A field, and then those after it.
#[verifier::spinoff_prover]
pub(crate) proof fn lemma_tuple_join(
    fields: Seq<FieldV>,
    k: nat,
    env: Scope,
    items: Seq<JsonV>,
    block: Block,
    off: u64,
    base: nat,
    mem: Mem,
    first: Seq<OpV>,
    rest: Seq<OpV>,
)
    requires
        scope_ok(env),
        fields_apart(fields, fields.len(), env),
        earlier(block, base),
        k < fields.len(),
        k < items.len(),
        off + fields[k as int].offset <= u64::MAX,
        lays(
            fields[k as int].ty,
            env,
            env.len(),
            items[k as int],
            block,
            (off + fields[k as int].offset) as u64,
            base,
            first,
            mem,
        ),
        lays_tuple(fields, k + 1, env, items, block, off, base + first.len(), rest, after(mem, first)),
    ensures
        lays_tuple(fields, k, env, items, block, off, base, first + rest, mem),
{
    let f = fields[k as int];
    let at = (off + f.offset) as u64;
    let v = items[k as int];
    lemma_fields_apart(fields, fields.len(), env, k as int);
    let ops = first + rest;
    let lo = base as int;
    let mid = (base + first.len()) as int;
    let hi = (base + ops.len()) as int;
    let m1 = after(mem, first);
    let m2 = after(m1, rest);
    let one = area(block, off + f.offset, field_span(f, env), lo, mid);
    let more = fields_area(fields, (k + 1) as int, env, block, off as int, mid, hi);
    let all = fields_area(fields, k as int, env, block, off as int, lo, hi);
    lemma_after_join(mem, first, rest);
    lemma_field_alone(fields, k as int, env, block, off as int, lo, mid, hi);
    lemma_confined_more(first, one, all);
    lemma_confined_more(rest, more, all);
    lemma_confined_join(first, rest, all);
    lemma_agree_after(m1, rest, more, one);
    lemma_shows_agree(f.ty, env, env.len(), v, m1, m2, one, block, at as int, lo, mid, lo, hi);
    let whole = |b: Block, i: int| true;
    assert(agree(m2, m2, whole));
    lemma_tuple_agree(fields, k + 1, env, items, m2, m2, whole, block, off as int, mid, hi, lo, hi);
}

/// Binding a document to a type leaves memory that holds the document as the type,
/// and changes nothing but the bytes of the destination's value and blocks of its
/// own; this of every type whose parts do not overlap and which contains itself, if
/// at all, behind a pointer.
pub proof fn law_laid_out_shows(ty: TyV, v: JsonV, mem: Mem)
    requires
        no_overlap(ty, Seq::empty()),
        span(ty, Seq::empty(), 0) is Some,
        crate::interp::bind(ty, Seq::empty(), 0, v, Block::Dest, 0, 0) is Ok,
        crate::interp::bind(ty, Seq::empty(), 0, v, Block::Dest, 0, 0)->Ok_0.len() <= usize::MAX,
    ensures
        ({
            let ops = crate::interp::bind(ty, Seq::empty(), 0, v, Block::Dest, 0, 0)->Ok_0;
            let end = ops.len() as int;
            &&& shows(ty, Seq::empty(), 0, v, after(mem, ops), Block::Dest, 0, 0, end)
            &&& confined(ops, area(Block::Dest, 0, span(ty, Seq::empty(), 0)->0, 0, end))
        }),
{
    assert(scope_ok(Seq::empty()));
    lemma_bind(ty, Seq::empty(), 0, v, Block::Dest, 0, 0, mem);
}

} // verus!
