//! Writes stay within bounds: within the bytes of the destination's value, and
//! within the blocks that were allocated before them.
use crate::interp::{Block, OpV, Scope};
use crate::json::JsonV;
use crate::memory::Mem;
use crate::plan::{FieldV, SeqLayout, TyV};
use vstd::prelude::*;

verus! {

/// Whether a byte is one of a block that one of the first `q` writes allocated.
pub open spec fn own(ops: Seq<OpV>, base: nat, q: int, b: Block, i: int) -> bool {
    match b {
        Block::Heap(h) => base <= h < base + q && match ops[h - base] {
            OpV::Alloc { size, align } => 0 <= i < size,
            _ => false,
        },
        _ => false,
    }
}

/// Whether writes, with `base` before them, change nothing but some bytes of a block
/// and bytes of blocks that they have allocated.
pub open spec fn held(ops: Seq<OpV>, block: Block, from: int, n: int, base: nat) -> bool {
    forall|q: int, b: Block, i: int|
        0 <= q < ops.len() && #[trigger] crate::memory::touches(ops[q], b, i) ==> (b == block && from <= i
            < from + n) || own(ops, base, q, b, i)
}

/// Whether a type has room for what is written: a boxed value in its block and, where
/// that matters, what an integer is stored in in the integer's bytes.
pub open spec fn roomy(ty: TyV, env: Scope, ints: bool) -> bool
    decreases ty, 0nat,
{
    match ty {
        TyV::U(n) => ints ==> crate::binder::store_width(n) <= n,
        TyV::I(n) => ints ==> crate::binder::store_width(n) <= n,
        TyV::Struct { name, fields } => roomy_fields(fields, fields.len(), env, ints),
        TyV::Tuple { fields } => roomy_fields(fields, fields.len(), env, ints),
        TyV::Vec { elem, elem_size, elem_align, seq } => roomy(*elem, env, ints),
        TyV::Opt { disc_off, disc_size, none_discr, some_discr, payload_off, size, inner } => roomy(
            *inner,
            env,
            ints,
        ),
        TyV::Boxed { inner, size, align } => {
            &&& roomy(*inner, env, ints)
            &&& crate::memory::span(*inner, env, env.len()) matches Some(n) && n <= size
        },
        TyV::BTreeMap { key, key_size, val, val_size, new_at, insert } => {
            &&& roomy(*val, env, ints)
            &&& crate::memory::span(*val, env, env.len()) matches Some(n) && n <= crate::read::room(val_size)
            &&& *key matches TyV::Str(seq) ==> crate::memory::span_words(seq) <= crate::read::room(key_size)
        },
        TyV::Rec { site, body } => roomy(*body, env.push((site, *body)), ints),
        _ => true,
    }
}

/// Whether the first `n` fields have room for what they point to.
pub open spec fn roomy_fields(fields: Seq<FieldV>, n: nat, env: Scope, ints: bool) -> bool
    decreases fields, n,
{
    if n == 0 || n > fields.len() {
        true
    } else {
        roomy(fields[n - 1].ty, env, ints) && roomy_fields(fields, (n - 1) as nat, env, ints)
    }
}

/// Whether the enclosing types have room for what they point to.
pub open spec fn roomy_scope(env: Scope, ints: bool) -> bool {
    forall|i: int| 0 <= i < env.len() ==> roomy((#[trigger] env[i]).1, env.take(i + 1), ints)
}

/// What is asked of a type.
pub open spec fn well_laid(ty: TyV, env: Scope, ints: bool) -> bool {
    &&& crate::memory::scope_ok(env)
    &&& crate::memory::no_overlap(ty, env)
    &&& crate::memory::span(ty, env, env.len()) is Some
    &&& roomy(ty, env, ints)
    &&& roomy_scope(env, ints)
}

proof fn lemma_roomy_field(fields: Seq<FieldV>, n: nat, env: Scope, k: int, ints: bool)
    requires
        roomy_fields(fields, n, env, ints),
        0 <= k < n <= fields.len(),
    ensures
        roomy(fields[k].ty, env, ints),
    decreases n,
{
    if k < n - 1 {
        lemma_roomy_field(fields, (n - 1) as nat, env, k, ints);
    }
}

pub(crate) proof fn lemma_enter(ty: TyV, env: Scope, ints: bool)
    requires
        ty is Rec,
        well_laid(ty, env, ints),
    ensures
        ({
            let body = *ty->body;
            let more = env.push((ty->Rec_site, body));
            &&& well_laid(body, more, ints)
            &&& crate::memory::span(body, more, more.len()) == crate::memory::span(ty, env, env.len())
        }),
{
    let body = *ty->body;
    let more = env.push((ty->Rec_site, body));
    crate::memory::lemma_scope_push(env, ty->Rec_site, body);
    crate::memory::lemma_span_more(body, more, env.len(), env.len() + 1);
    assert forall|i: int| 0 <= i < more.len() implies roomy((#[trigger] more[i]).1, more.take(i + 1), ints) by {
        if i < env.len() {
            assert(more.take(i + 1) =~= env.take(i + 1));
            assert(more[i] == env[i]);
        } else {
            assert(more.take(i + 1) =~= more);
        }
    }
}

pub(crate) proof fn lemma_return(env: Scope, i: int, ints: bool)
    requires
        crate::memory::scope_ok(env),
        roomy_scope(env, ints),
        0 <= i < env.len(),
    ensures
        well_laid(env[i].1, env.take(i + 1), ints),
        crate::memory::span(env[i].1, env.take(i + 1), (i + 1) as nat) == crate::memory::span(
            env[i].1,
            env.take(i + 1),
            i as nat,
        ),
{
    crate::memory::lemma_scope_take(env, i);
    let less = env.take(i + 1);
    assert forall|j: int| 0 <= j < less.len() implies roomy((#[trigger] less[j]).1, less.take(j + 1), ints) by {
        assert(less.take(j + 1) =~= env.take(j + 1));
        assert(less[j] == env[j]);
    }
    assert(roomy(env[i].1, env.take(i + 1), ints));
}

/// What is asked of a struct holds of its fields.
pub(crate) proof fn lemma_field(fields: Seq<FieldV>, env: Scope, k: int, ints: bool)
    requires
        crate::memory::scope_ok(env),
        roomy_scope(env, ints),
        crate::memory::fields_apart(fields, fields.len(), env),
        crate::memory::span_fields(fields, fields.len(), env, env.len()) is Some,
        roomy_fields(fields, fields.len(), env, ints),
        0 <= k < fields.len(),
    ensures
        well_laid(fields[k].ty, env, ints),
        0 <= crate::memory::field_span(fields[k], env),
        fields[k].offset + crate::memory::field_span(fields[k], env) <= crate::memory::span_fields(
            fields,
            fields.len(),
            env,
            env.len(),
        )->0,
{
    crate::memory::lemma_fields_apart(fields, fields.len(), env, k);
    crate::memory::lemma_field_within(fields, fields.len(), env, k);
    lemma_roomy_field(fields, fields.len(), env, k, ints);
}

// ---------------------------------------------------------------------------
// Putting writes together.
// ---------------------------------------------------------------------------

proof fn lemma_confined(ops: Seq<OpV>, block: Block, from: int, n: int, base: nat, lo: int)
    requires
        crate::memory::confined(ops, crate::memory::area(block, from, n, lo, lo)),
    ensures
        held(ops, block, from, n, base),
{
    let a = crate::memory::area(block, from, n, lo, lo);
    assert forall|q: int, b: Block, i: int|
        0 <= q < ops.len() && #[trigger] crate::memory::touches(ops[q], b, i) implies b == block && from <= i < from
        + n by {
        assert(a(b, i));
    }
}

proof fn lemma_wider(ops: Seq<OpV>, block: Block, from: int, n: int, to: int, w: int, base: nat)
    requires
        held(ops, block, from, n, base),
        to <= from,
        from + n <= to + w,
    ensures
        held(ops, block, to, w, base),
{
}

proof fn lemma_join(first: Seq<OpV>, rest: Seq<OpV>, block: Block, from: int, n: int, base: nat)
    requires
        held(first, block, from, n, base),
        held(rest, block, from, n, base + first.len()),
    ensures
        held(first + rest, block, from, n, base),
{
    let ops = first + rest;
    assert forall|q: int, b: Block, i: int|
        0 <= q < ops.len() && #[trigger] crate::memory::touches(ops[q], b, i) implies (b == block && from
        <= i < from + n) || own(ops, base, q, b, i) by {
        if q < first.len() {
            assert(ops[q] == first[q]);
            assert(crate::memory::touches(first[q], b, i));
            if own(first, base, q, b, i) {
                assert(ops[b->Heap_0 - base] == first[b->Heap_0 - base]);
            }
        } else {
            let p = q - first.len();
            assert(ops[q] == rest[p]);
            assert(crate::memory::touches(rest[p], b, i));
            if own(rest, base + first.len(), p, b, i) {
                assert(ops[b->Heap_0 - base] == rest[b->Heap_0 - base - first.len()]);
            }
        }
    }
}

/// A block is allocated and filled, and then what leads to it is written.
proof fn lemma_block(
    size: int,
    align: u64,
    rest: Seq<OpV>,
    tail: Seq<OpV>,
    block: Block,
    from: int,
    n: int,
    base: nat,
)
    requires
        base <= usize::MAX,
        0 <= size <= u64::MAX,
        ({
            let first = crate::interp::home_ops(size, align);
            held(rest, crate::interp::home(size, align, base), 0, size, base + first.len())
        }),
        crate::memory::confined(tail, crate::memory::area(block, from, n, 0, 0)),
    ensures
        held(crate::interp::home_ops(size, align) + rest + tail, block, from, n, base),
{
    let first = crate::interp::home_ops(size, align);
    let all = first + rest;
    assert forall|q: int, b: Block, i: int|
        0 <= q < all.len() && #[trigger] crate::memory::touches(all[q], b, i) implies own(all, base, q, b, i) by {
        let p = first.len() as int;
        if q < p {
            assert(all[q] == first[0]);
        } else {
            assert(all[q] == rest[q - p]);
            assert(crate::memory::touches(rest[q - p], b, i));
            if own(rest, base + first.len(), q - p, b, i) {
                assert(all[b->Heap_0 - base] == rest[b->Heap_0 - base - p]);
            } else {
                assert(all[0] == first[0]);
            }
        }
    }
    assert(held(all, block, from, n, base));
    lemma_confined(tail, block, from, n, base + all.len(), 0);
    lemma_join(all, tail, block, from, n, base);
}

/// Bytes are copied into a block of their own, and then what leads to it is written.
proof fn lemma_copied(bytes: Seq<u8>, tail: Seq<OpV>, block: Block, from: int, n: int, base: nat)
    requires
        base <= usize::MAX,
        bytes.len() <= u64::MAX,
        crate::memory::confined(tail, crate::memory::area(block, from, n, 0, 0)),
    ensures
        held(crate::interp::copy_ops(bytes, base).0 + tail, block, from, n, base),
{
    let copy = crate::interp::copy_ops(bytes, base).0;
    if bytes.len() == 0 {
        lemma_confined(tail, block, from, n, base, 0);
        assert(copy + tail =~= tail);
    } else {
        let heap = Block::Heap(base as usize);
        let size = bytes.len() as u64;
        let op = crate::interp::put(heap, 0, bytes);
        let rest = seq![op];
        assert forall|q: int, b: Block, i: int|
            0 <= q < rest.len() && #[trigger] crate::memory::touches(rest[q], b, i) implies b == heap && 0 <= i < size by {
            assert(rest[q] == op);
        }
        lemma_block(size as int, 1, rest, tail, block, from, n, base);
        assert(copy =~= seq![OpV::Alloc { size, align: 1 }] + rest);
    }
}

/// A pointer and a length beside it.
proof fn lemma_two_words(ptr_off: usize, len_off: usize, block: Block, off: u64, to: Result<usize, u64>, n: nat)
    requires
        off + ptr_off <= u64::MAX,
        off + len_off <= u64::MAX,
    ensures
        crate::memory::confined(
            seq![
                crate::interp::pointer(block, (off + ptr_off) as u64, to),
                crate::interp::put(block, (off + len_off) as u64, crate::interp::word(n)),
            ],
            crate::memory::area(
                block,
                off as int,
                crate::memory::larger(ptr_off as int, len_off as int) + 8,
                0,
                0,
            ),
        ),
{
    crate::memory::lemma_lengths();
    let x = crate::interp::pointer(block, (off + ptr_off) as u64, to);
    let y = crate::interp::put(block, (off + len_off) as u64, crate::interp::word(n));
    let ops = seq![x, y];
    let a = crate::memory::area(
        block,
        off as int,
        crate::memory::larger(ptr_off as int, len_off as int) + 8,
        0,
        0,
    );
    assert forall|q: int, b: Block, i: int|
        0 <= q < ops.len() && #[trigger] crate::memory::touches(ops[q], b, i) implies a(b, i) by {
        if q == 0 {
            assert(ops[q] == x);
        } else {
            assert(ops[q] == y);
        }
    }
}

/// An `Option` with a value.
proof fn lemma_some(ty: TyV, env: Scope, block: Block, off: u64, base: nat, some: Seq<OpV>, ops: Seq<OpV>, ints: bool)
    requires
        ty is Opt,
        well_laid(ty, env, ints),
        off + ty->payload_off <= u64::MAX,
        held(
            some,
            block,
            off + ty->payload_off,
            crate::memory::span(*ty->Opt_inner, env, env.len())->0,
            base,
        ),
        match ty->some_discr {
            None => ops == some,
            Some(discr) => off + ty->disc_off <= u64::MAX && ops == some.push(
                crate::interp::put(
                    block,
                    (off + ty->disc_off) as u64,
                    crate::arith::le(discr as nat, ty->disc_size as nat),
                ),
            ),
        },
    ensures
        held(ops, block, off as int, crate::memory::span(ty, env, env.len())->0, base),
{
    let n = crate::memory::span(ty, env, env.len())->0;
    let k = crate::memory::span(*ty->Opt_inner, env, env.len())->0;
    lemma_wider(some, block, off + ty->payload_off, k, off as int, n, base);
    if let Some(discr) = ty->some_discr {
        crate::memory::lemma_lengths();
        let bytes = crate::arith::le(discr as nat, ty->disc_size as nat);
        let op = crate::interp::put(block, (off + ty->disc_off) as u64, bytes);
        let one = seq![op];
        let later = base + some.len();
        assert forall|q: int, b: Block, i: int|
            0 <= q < one.len() && #[trigger] crate::memory::touches(one[q], b, i) implies b == block && off <= i < off
            + n by {
            assert(one[q] == op);
        }
        lemma_join(some, one, block, off as int, n, base);
        assert(some + one =~= ops);
    }
}

// ---------------------------------------------------------------------------
// Laying a document out.
// ---------------------------------------------------------------------------

#[verifier::spinoff_prover]
#[verifier::rlimit(60)]
proof fn lemma_bind(ty: TyV, env: Scope, limit: nat, v: JsonV, block: Block, off: u64, base: nat, mem: Mem, ints: bool)
    requires
        well_laid(ty, env, ints),
        crate::interp::bind(ty, env, limit, v, block, off, base) is Ok,
        base + crate::interp::bind(ty, env, limit, v, block, off, base)->Ok_0.len() <= usize::MAX,
    ensures
        held(
            crate::interp::bind(ty, env, limit, v, block, off, base)->Ok_0,
            block,
            off as int,
            crate::memory::span(ty, env, env.len())->0,
            base,
        ),
    decreases v, limit, ty, 0nat,
{
    crate::memory::lemma_lengths();
    let ops = crate::interp::bind(ty, env, limit, v, block, off, base)->Ok_0;
    let at = off as int;
    let n = crate::memory::span(ty, env, env.len())->0;
    match ty {
        TyV::Bool => {
            let b = if v == JsonV::Bool(true) {
                1u8
            } else {
                0u8
            };
            crate::memory::lemma_put(mem, block, off, seq![b], 1, 0, 0);
            lemma_confined(ops, block, at, n, base, 0);
        },
        TyV::Char => {
            let bytes = crate::arith::le(crate::interp::first_char(v->Str_0) as nat, 4);
            crate::memory::lemma_put(mem, block, off, bytes, 4, 0, 0);
            lemma_confined(ops, block, at, n, base, 0);
        },
        TyV::U(w) => {
            let bytes = crate::arith::le(crate::json::u128_of(v)->0, w as nat);
            crate::memory::lemma_put(mem, block, off, bytes, w as int, 0, 0);
            lemma_confined(ops, block, at, n, base, 0);
        },
        TyV::I(w) => {
            let x = crate::json::i128_of(v)->0;
            let bytes = crate::arith::le(crate::arith::as_unsigned(x), w as nat);
            crate::memory::lemma_put(mem, block, off, bytes, w as int, 0, 0);
            lemma_confined(ops, block, at, n, base, 0);
        },
        TyV::F32 => {
            crate::memory::lemma_float(mem, block, off, v->Num_0, 4, 0, 0);
            lemma_confined(ops, block, at, n, base, 0);
        },
        TyV::F64 => {
            crate::memory::lemma_float(mem, block, off, v->Num_0, 8, 0, 0);
            lemma_confined(ops, block, at, n, base, 0);
        },
        TyV::Unit => {},
        TyV::Struct { name, fields } => lemma_bind_fields(name, fields, 0, env, v, block, off, base, mem, ints),
        TyV::Tuple { fields } => {
            assert(decreases_to!(v => v->Array_0));
            lemma_bind_tuple(fields, 0, env, v->Array_0, block, off, base, mem, ints);
        },
        TyV::Str(seq) => {
            let bytes = vstd::utf8::encode_utf8(v->Str_0);
            let (copy, to) = crate::interp::copy_ops(bytes, base);
            crate::memory::lemma_seq_words(mem, seq, block, off, to, bytes.len());
            let words = crate::interp::seq_words(seq, block, off, to, bytes.len())->Ok_0;
            lemma_copied(bytes, words, block, at, n, base);
        },
        TyV::StrRef { ptr_off, len_off } => {
            let bytes = vstd::utf8::encode_utf8(v->Str_0);
            let (copy, to) = crate::interp::copy_ops(bytes, base);
            lemma_two_words(ptr_off, len_off, block, off, to, bytes.len());
            let words = seq![
                crate::interp::pointer(block, (off + ptr_off) as u64, to),
                crate::interp::put(block, (off + len_off) as u64, crate::interp::word(bytes.len())),
            ];
            lemma_copied(bytes, words, block, at, n, base);
        },
        TyV::Vec { elem, elem_size, elem_align, seq } => {
            let items = v->Array_0;
            let align = if elem_align == 0 {
                1
            } else {
                elem_align
            };
            assert(decreases_to!(v => v->Array_0));
            let size = items.len() * elem_size;
            let heap = crate::interp::home(size, align, base);
            let to = crate::interp::home_ptr(size, align, base);
            let start = base + crate::interp::home_ops(size, align).len();
            crate::memory::lemma_seq_words(mem, seq, block, off, to, items.len());
            let rest = crate::interp::bind_items(*elem, 0, env, items, elem_size, heap, start)->Ok_0;
            let words = crate::interp::seq_words(seq, block, off, to, items.len())->Ok_0;
            lemma_bind_items(*elem, 0, env, items, elem_size, heap, start, mem, ints);
            lemma_block(size, align, rest, words, block, at, n, base);
        },
        TyV::Opt { disc_off, disc_size, none_discr, some_discr, payload_off, size, inner } => {
            if v == JsonV::Null {
                crate::memory::lemma_span_more(*inner, env, env.len(), env.len());
                crate::memory::lemma_none(mem, disc_off, disc_size, none_discr, size, block, off, n, 0, 0);
                lemma_confined(ops, block, at, n, base, 0);
            } else {
                let p = (off + payload_off) as u64;
                let some = crate::interp::bind(*inner, env, limit, v, block, p, base)->Ok_0;
                lemma_bind(*inner, env, limit, v, block, p, base, mem, ints);
                lemma_some(ty, env, block, off, base, some, ops, ints);
            }
        },
        TyV::Boxed { inner, size, align } => {
            let heap = crate::interp::home(size as int, align, base);
            let start = base + crate::interp::home_ops(size as int, align).len();
            let rest = crate::interp::bind(*inner, env, limit, v, heap, 0, start)->Ok_0;
            let to = crate::interp::home_ptr(size as int, align, base);
            lemma_bind(*inner, env, limit, v, heap, 0, start, mem, ints);
            let k = crate::memory::span(*inner, env, env.len())->0;
            lemma_wider(rest, heap, 0, k, 0, size as int, start);
            crate::memory::lemma_pointer(mem, block, off, to);
            lemma_block(size as int, align, rest, seq![crate::interp::pointer(block, off, to)], block, at, n, base);
        },
        TyV::Rec { site, body } => {
            lemma_enter(ty, env, ints);
            lemma_bind(*body, env.push((site, *body)), limit, v, block, off, base, mem, ints);
        },
        TyV::Ref(site) => {
            let i = crate::interp::find_site(env, env.len(), site)->0;
            crate::interp::lemma_find_site(env, env.len(), site);
            lemma_return(env, i as int, ints);
            lemma_bind(env[i as int].1, env.take((i + 1) as int), i, v, block, off, base, mem, ints);
        },
        TyV::BTreeMap { .. } => {},
        TyV::Unknown(what) => {},
    }
}

#[verifier::spinoff_prover]
proof fn lemma_bind_fields(
    name: Seq<char>,
    fields: Seq<FieldV>,
    k: nat,
    env: Scope,
    v: JsonV,
    block: Block,
    off: u64,
    base: nat,
    mem: Mem,
    ints: bool,
)
    requires
        crate::memory::scope_ok(env),
        roomy_scope(env, ints),
        crate::memory::fields_apart(fields, fields.len(), env),
        crate::memory::span_fields(fields, fields.len(), env, env.len()) is Some,
        roomy_fields(fields, fields.len(), env, ints),
        crate::interp::bind_fields(name, fields, k, env, v, block, off, base) is Ok,
        base + crate::interp::bind_fields(name, fields, k, env, v, block, off, base)->Ok_0.len() <= usize::MAX,
    ensures
        held(
            crate::interp::bind_fields(name, fields, k, env, v, block, off, base)->Ok_0,
            block,
            off as int,
            crate::memory::span_fields(fields, fields.len(), env, env.len())->0,
            base,
        ),
    decreases v, 0nat, fields, fields.len() - k,
{
    if k < fields.len() {
        let f = fields[k as int];
        let at = (off + f.offset) as u64;
        let n = crate::memory::span_fields(fields, fields.len(), env, env.len())->0;
        lemma_field(fields, env, k as int, ints);
        let sub = crate::json::get_of(v, f.name);
        let first = match sub {
            Some(s) => crate::interp::bind(f.ty, env, env.len(), s, block, at, base)->Ok_0,
            None => crate::interp::absent(f.ty, env, env.len(), block, at)->0->Ok_0,
        };
        let rest = crate::interp::bind_fields(
            name,
            fields,
            k + 1,
            env,
            v,
            block,
            off,
            base + first.len(),
        )->Ok_0;
        match sub {
            Some(s) => {
                crate::json::lemma_get_of(v, f.name);
                lemma_bind(f.ty, env, env.len(), s, block, at, base, mem, ints);
            },
            None => {
                crate::memory::lemma_absent(f.ty, env, env.len(), block, at, mem, 0, 0);
                lemma_confined(first, block, at as int, crate::memory::field_span(f, env), base, 0);
            },
        }
        lemma_wider(first, block, at as int, crate::memory::field_span(f, env), off as int, n, base);
        lemma_bind_fields(name, fields, k + 1, env, v, block, off, base + first.len(), mem, ints);
        lemma_join(first, rest, block, off as int, n, base);
    }
}

#[verifier::spinoff_prover]
proof fn lemma_bind_tuple(
    fields: Seq<FieldV>,
    k: nat,
    env: Scope,
    items: Seq<JsonV>,
    block: Block,
    off: u64,
    base: nat,
    mem: Mem,
    ints: bool,
)
    requires
        crate::memory::scope_ok(env),
        roomy_scope(env, ints),
        crate::memory::fields_apart(fields, fields.len(), env),
        crate::memory::span_fields(fields, fields.len(), env, env.len()) is Some,
        roomy_fields(fields, fields.len(), env, ints),
        crate::interp::bind_tuple(fields, k, env, items, block, off, base) is Ok,
        base + crate::interp::bind_tuple(fields, k, env, items, block, off, base)->Ok_0.len() <= usize::MAX,
    ensures
        held(
            crate::interp::bind_tuple(fields, k, env, items, block, off, base)->Ok_0,
            block,
            off as int,
            crate::memory::span_fields(fields, fields.len(), env, env.len())->0,
            base,
        ),
    decreases items, 0nat, fields, fields.len() - k,
{
    if k < fields.len() && k < items.len() {
        let f = fields[k as int];
        let at = (off + f.offset) as u64;
        let n = crate::memory::span_fields(fields, fields.len(), env, env.len())->0;
        lemma_field(fields, env, k as int, ints);
        assert(decreases_to!(items => items[k as int]));
        let first = crate::interp::bind(f.ty, env, env.len(), items[k as int], block, at, base)->Ok_0;
        let rest = crate::interp::bind_tuple(fields, k + 1, env, items, block, off, base + first.len())->Ok_0;
        lemma_bind(f.ty, env, env.len(), items[k as int], block, at, base, mem, ints);
        lemma_wider(first, block, at as int, crate::memory::field_span(f, env), off as int, n, base);
        lemma_bind_tuple(fields, k + 1, env, items, block, off, base + first.len(), mem, ints);
        lemma_join(first, rest, block, off as int, n, base);
    }
}

/// Where an item lies in its block.
pub(crate) proof fn lemma_item(k: nat, count: nat, elem_size: u64, n: int)
    requires
        k < count,
        0 <= n <= elem_size,
    ensures
        0 <= k * elem_size,
        k * elem_size + n <= count * elem_size,
{
    assert(0 <= k * elem_size && k * elem_size + n <= count * elem_size) by (nonlinear_arith)
        requires
            0 <= k,
            k + 1 <= count,
            0 <= n <= elem_size,
    ;
}

#[verifier::spinoff_prover]
proof fn lemma_bind_items(
    elem: TyV,
    k: nat,
    env: Scope,
    items: Seq<JsonV>,
    elem_size: u64,
    heap: Block,
    base: nat,
    mem: Mem,
    ints: bool,
)
    requires
        well_laid(elem, env, ints),
        crate::memory::span(elem, env, env.len())->0 <= elem_size,
        items.len() * elem_size <= u64::MAX,
        crate::interp::bind_items(elem, k, env, items, elem_size, heap, base) is Ok,
        base + crate::interp::bind_items(elem, k, env, items, elem_size, heap, base)->Ok_0.len() <= usize::MAX,
    ensures
        held(
            crate::interp::bind_items(elem, k, env, items, elem_size, heap, base)->Ok_0,
            heap,
            0,
            items.len() * elem_size,
            base,
        ),
    decreases items, 0nat, elem, items.len() - k,
{
    if k < items.len() {
        let block = heap;
        let n = crate::memory::span(elem, env, env.len())->0;
        crate::memory::lemma_span_more(elem, env, env.len(), env.len());
        lemma_item(k, items.len(), elem_size, n);
        let at = (k * elem_size) as u64;
        assert(decreases_to!(items => items[k as int]));
        let first = crate::interp::bind(elem, env, env.len(), items[k as int], block, at, base)->Ok_0;
        let rest = crate::interp::bind_items(
            elem,
            k + 1,
            env,
            items,
            elem_size,
            heap,
            base + first.len(),
        )->Ok_0;
        lemma_bind(elem, env, env.len(), items[k as int], block, at, base, mem, ints);
        lemma_wider(first, block, at as int, n, 0, items.len() * elem_size, base);
        lemma_bind_items(elem, k + 1, env, items, elem_size, heap, base + first.len(), mem, ints);
        lemma_join(first, rest, block, 0, items.len() * elem_size, base);
    }
}

/// Laying a document out writes nowhere but within the destination's value and
/// within blocks that it has allocated; this of every type that
/// [`crate::memory::law_laid_out_shows`] is about and whose boxed values fit in
/// their blocks.
pub proof fn law_laid_out_in_bounds(ty: TyV, v: JsonV)
    requires
        crate::memory::no_overlap(ty, Seq::empty()),
        crate::memory::span(ty, Seq::empty(), 0) is Some,
        roomy(ty, Seq::empty(), false),
        crate::interp::bind(ty, Seq::empty(), 0, v, Block::Dest, 0, 0) is Ok,
        crate::interp::bind(ty, Seq::empty(), 0, v, Block::Dest, 0, 0)->Ok_0.len() <= usize::MAX,
    ensures
        held(
            crate::interp::bind(ty, Seq::empty(), 0, v, Block::Dest, 0, 0)->Ok_0,
            Block::Dest,
            0,
            crate::memory::span(ty, Seq::empty(), 0)->0,
            0,
        ),
{
    assert(crate::memory::scope_ok(Seq::empty()));
    assert(roomy_scope(Seq::empty(), false));
    lemma_bind(ty, Seq::empty(), 0, v, Block::Dest, 0, 0, |b: Block, i: int| None, false);
}

// ---------------------------------------------------------------------------
// Reading raw text.
// ---------------------------------------------------------------------------

/// What is asked of a struct's fields.
pub open spec fn fields_laid(fields: Seq<FieldV>, env: Scope) -> bool {
    &&& crate::memory::scope_ok(env)
    &&& roomy_scope(env, true)
    &&& crate::memory::fields_apart(fields, fields.len(), env)
    &&& crate::memory::span_fields(fields, fields.len(), env, env.len()) is Some
    &&& roomy_fields(fields, fields.len(), env, true)
}

/// How many bytes fields take.
pub open spec fn fields_span(fields: Seq<FieldV>, env: Scope) -> int {
    crate::memory::span_fields(fields, fields.len(), env, env.len())->0
}

/// A string in the text is no longer than the text.
proof fn lemma_short(d: Seq<u8>, first: int, quote: int)
    requires
        crate::read::span_bytes(d, first, quote) is Some,
    ensures
        crate::read::span_bytes(d, first, quote)->0.len() <= d.len(),
{
}

/// Items are read into a block of their own, and then what leads to them is
/// written.
#[verifier::spinoff_prover]
proof fn lemma_vec(
    n: nat,
    elem: TyV,
    elem_size: u64,
    align: u64,
    seq: SeqLayout,
    k: nat,
    env: Scope,
    d: Seq<u8>,
    first: int,
    block: Block,
    off: u64,
    base: nat,
    mem: Mem,
)
    requires
        crate::memory::words_apart(seq),
        crate::memory::earlier(block, base),
        k * elem_size <= u64::MAX,
        k <= u64::MAX,
        base < usize::MAX,
        crate::interp::seq_words(
            seq,
            block,
            off,
            crate::interp::home_ptr(k * elem_size, align, base),
            k,
        ) is Ok,
        ({
            let size = k * elem_size;
            let pre = crate::interp::home_ops(size, align);
            let heap = crate::interp::home(size, align, base);
            held(
                crate::read::read_items(n, elem, 0, k, env, d, first, elem_size, heap, base + pre.len()).unwrap().0,
                heap,
                0,
                size,
                base + pre.len(),
            )
        }),
    ensures
        ({
            let size = k * elem_size;
            let pre = crate::interp::home_ops(size, align);
            let heap = crate::interp::home(size, align, base);
            let to = crate::interp::home_ptr(size, align, base);
            held(
                pre + crate::read::read_items(
                    n,
                    elem,
                    0,
                    k,
                    env,
                    d,
                    first,
                    elem_size,
                    heap,
                    base + pre.len(),
                ).unwrap().0 + crate::interp::seq_words(seq, block, off, to, k)->Ok_0,
                block,
                off as int,
                crate::memory::span_words(seq),
                base,
            )
        }),
{
    let size = k * elem_size;
    let pre = crate::interp::home_ops(size, align);
    let heap = crate::interp::home(size, align, base);
    let to = crate::interp::home_ptr(size, align, base);
    crate::memory::lemma_seq_words(mem, seq, block, off, to, k);
    let rest = crate::read::read_items(n, elem, 0, k, env, d, first, elem_size, heap, base + pre.len()).unwrap().0;
    let words = crate::interp::seq_words(seq, block, off, to, k)->Ok_0;
    lemma_block(size, align, rest, words, block, off as int, crate::memory::span_words(seq), base);
}

#[verifier::spinoff_prover]
#[verifier::rlimit(60)]
proof fn lemma_read(
    n: nat,
    ty: TyV,
    env: Scope,
    d: Seq<u8>,
    c: int,
    block: Block,
    off: u64,
    base: nat,
    mem: Mem,
)
    requires
        well_laid(ty, env, true),
        crate::memory::earlier(block, base),
        d.len() <= u64::MAX,
        crate::read::read(n, ty, env, d, c, block, off, base) matches Some((ops, end)) && base + ops.len()
            <= usize::MAX,
    ensures
        held(
            crate::read::read(n, ty, env, d, c, block, off, base).unwrap().0,
            block,
            off as int,
            crate::memory::span(ty, env, env.len())->0,
            base,
        ),
    decreases n, ty, 0int,
{
    crate::memory::lemma_lengths();
    let ops = crate::read::read(n, ty, env, d, c, block, off, base).unwrap().0;
    let at = off as int;
    let size_of = crate::memory::span(ty, env, env.len())->0;
    match ty {
        TyV::Bool => {
            let p = crate::scan::space_end(d, c);
            let x: nat = if d[p] == crate::ascii::LOWER_T {
                1
            } else {
                0
            };
            crate::memory::lemma_put(mem, block, off, crate::arith::le(x, 1), 1, 0, 0);
            lemma_confined(ops, block, at, size_of, base, 0);
        },
        TyV::Char => {
            let (first, quote) = crate::scan::span(d, c);
            let bytes = crate::arith::le(crate::read::char_at(d, first, quote)->0 as nat, 4);
            crate::memory::lemma_put(mem, block, off, bytes, 4, 0, 0);
            lemma_confined(ops, block, at, size_of, base, 0);
        },
        TyV::U(w) => {
            let x = crate::scan::int_at(d, c, false).unwrap().0;
            let bytes = crate::arith::le(x as nat, crate::binder::store_width(w) as nat);
            crate::memory::lemma_put(mem, block, off, bytes, w as int, 0, 0);
            lemma_confined(ops, block, at, size_of, base, 0);
        },
        TyV::I(w) => {
            let x = crate::scan::int_at(d, c, true).unwrap().0;
            let bytes = crate::arith::le(x as nat, crate::binder::store_width(w) as nat);
            crate::memory::lemma_put(mem, block, off, bytes, w as int, 0, 0);
            lemma_confined(ops, block, at, size_of, base, 0);
        },
        TyV::F32 => {
            let start = crate::scan::space_end(d, c);
            let text = crate::text::ascii_text(d.subrange(start, crate::scan::number_end(d, start)));
            crate::memory::lemma_float(mem, block, off, text, 4, 0, 0);
            lemma_confined(ops, block, at, size_of, base, 0);
        },
        TyV::F64 => {
            let start = crate::scan::space_end(d, c);
            let text = crate::text::ascii_text(d.subrange(start, crate::scan::number_end(d, start)));
            crate::memory::lemma_float(mem, block, off, text, 8, 0, 0);
            lemma_confined(ops, block, at, size_of, base, 0);
        },
        TyV::Unit => {},
        TyV::Struct { name, fields } => {
            let pre = crate::read::none_fields(fields, 0, env, block, off)->0;
            crate::reading::lemma_none_fields(fields, 0, env, block, off, base, mem);
            crate::memory::lemma_fields_confined(
                fields,
                env,
                block,
                off as int,
                pre,
                base as int,
                base as int,
            );
            lemma_confined(pre, block, at, size_of, base, base as int);
            let first = crate::scan::space_end(d, c) + 1;
            let more = crate::read::read_members(
                n,
                fields,
                env,
                d,
                first,
                block,
                off,
                base + pre.len(),
            ).unwrap().0;
            lemma_read_members(n, fields, env, d, first, block, off, base + pre.len(), mem);
            lemma_join(pre, more, block, at, size_of, base);
        },
        TyV::Tuple { fields } => {
            lemma_read_tuple(
                n,
                fields,
                0,
                env,
                d,
                crate::scan::space_end(d, c) + 1,
                block,
                off,
                base,
                mem,
            );
        },
        TyV::Str(seq) => {
            let (first, quote) = crate::scan::span(d, c);
            let bytes = crate::read::span_bytes(d, first, quote)->0;
            lemma_short(d, first, quote);
            let (copy, to) = crate::interp::copy_ops(bytes, base);
            crate::memory::lemma_seq_words(mem, seq, block, off, to, bytes.len());
            let words = crate::interp::seq_words(seq, block, off, to, bytes.len())->Ok_0;
            lemma_copied(bytes, words, block, at, size_of, base);
        },
        TyV::StrRef { ptr_off, len_off } => {
            let (first, quote) = crate::scan::span(d, c);
            let bytes = crate::read::span_bytes(d, first, quote)->0;
            lemma_short(d, first, quote);
            let (copy, to) = crate::interp::copy_ops(bytes, base);
            lemma_two_words(ptr_off, len_off, block, off, to, bytes.len());
            let x = crate::interp::pointer(block, (off + ptr_off) as u64, to);
            let y = crate::interp::put(
                block,
                (off + len_off) as u64,
                crate::interp::word(bytes.len()),
            );
            lemma_copied(bytes, seq![x, y], block, at, size_of, base);
            assert(copy.push(x).push(y) =~= copy + seq![x, y]);
        },
        TyV::Vec { elem, elem_size, elem_align, seq } => {
            let first = crate::scan::space_end(d, c) + 1;
            let k = crate::read::count(d, first)->0;
            let align = if elem_align == 0 {
                1
            } else {
                elem_align
            };
            let pre = crate::interp::home_ops(k * elem_size, align);
            let heap = crate::interp::home(k * elem_size, align, base);
            lemma_read_items(n, *elem, 0, k, env, d, first, elem_size, heap, base + pre.len(), mem);
            lemma_vec(n, *elem, elem_size, align, seq, k, env, d, first, block, off, base, mem);
        },
        TyV::Opt { disc_off, disc_size, none_discr, some_discr, payload_off, size, inner } => {
            let h = crate::scan::space_end(d, c);
            if d[h] == crate::ascii::LOWER_N {
                crate::reading::lemma_disc(ty, env, none_discr, block, off, mem, 0, 0);
                lemma_confined(ops, block, at, size_of, base, 0);
            } else {
                let p = (off + payload_off) as u64;
                let some = crate::read::read(n, *inner, env, d, h, block, p, base).unwrap().0;
                lemma_read(n, *inner, env, d, h, block, p, base, mem);
                lemma_some(ty, env, block, off, base, some, ops, true);
            }
        },
        TyV::Boxed { inner, size, align } => {
            let heap = crate::interp::home(size as int, align, base);
            let first = crate::interp::home_ops(size as int, align);
            let start = base + first.len();
            let rest = crate::read::read(n, *inner, env, d, c, heap, 0, start).unwrap().0;
            let to = crate::interp::home_ptr(size as int, align, base);
            let last = crate::interp::pointer(block, off, to);
            assert(ops =~= first + rest + seq![last]);
            lemma_read(n, *inner, env, d, c, heap, 0, start, mem);
            let k = crate::memory::span(*inner, env, env.len())->0;
            lemma_wider(rest, heap, 0, k, 0, size as int, start);
            crate::memory::lemma_pointer(mem, block, off, to);
            lemma_block(size as int, align, rest, seq![last], block, at, size_of, base);
        },
        TyV::Rec { site, body } => {
            lemma_enter(ty, env, true);
            lemma_read((n - 1) as nat, *body, env.push((site, *body)), d, c, block, off, base, mem);
        },
        TyV::Ref(site) => {
            let i = crate::interp::find_site(env, env.len(), site)->0;
            crate::interp::lemma_find_site(env, env.len(), site);
            lemma_return(env, i as int, true);
            lemma_read(
                (n - 1) as nat,
                env[i as int].1,
                env.take((i + 1) as int),
                d,
                c,
                block,
                off,
                base,
                mem,
            );
        },
        TyV::BTreeMap { key, key_size, val, val_size, new_at, insert } => {
            let seq = (*key)->Str_0;
            let new = OpV::MapNew { block, off, at: new_at };
            let first = crate::scan::space_end(d, c) + 1;
            let rest = crate::read::read_entries(
                n,
                seq,
                key_size,
                *val,
                val_size,
                insert,
                env,
                d,
                first,
                block,
                off,
                base + 1,
            ).unwrap().0;
            lemma_map_op(new, block, off, base);
            lemma_read_entries(
                n,
                seq,
                key_size,
                *val,
                val_size,
                insert,
                env,
                d,
                first,
                block,
                off,
                base + 1,
                mem,
            );
            lemma_join(seq![new], rest, block, at, size_of, base);
        },
        TyV::Unknown(what) => {},
    }
}

/// What makes a map, or moves something into it, changes the map alone.
proof fn lemma_map_op(op: OpV, block: Block, off: u64, base: nat)
    requires
        match op {
            OpV::MapNew { block: b, off: o, .. } => b == block && o == off,
            OpV::MapInsert { block: b, off: o, .. } => b == block && o == off,
            _ => false,
        },
    ensures
        held(seq![op], block, off as int, crate::memory::MAP_SIZE as int, base),
        crate::memory::confined(
            seq![op],
            crate::memory::area(block, off as int, crate::memory::MAP_SIZE as int, 0, 0),
        ),
{
    let ops = seq![op];
    let a = crate::memory::area(block, off as int, crate::memory::MAP_SIZE as int, 0, 0);
    assert forall|q: int, b: Block, i: int|
        0 <= q < ops.len() && #[trigger] crate::memory::touches(ops[q], b, i) implies a(b, i) by {
        assert(ops[q] == op);
    }
    lemma_confined(ops, block, off as int, crate::memory::MAP_SIZE as int, base, 0);
}

#[verifier::spinoff_prover]
#[verifier::rlimit(40)]
proof fn lemma_read_entries(
    n: nat,
    seq: SeqLayout,
    key_size: u64,
    val: TyV,
    val_size: u64,
    insert: u64,
    env: Scope,
    d: Seq<u8>,
    c: int,
    block: Block,
    off: u64,
    base: nat,
    mem: Mem,
)
    requires
        well_laid(val, env, true),
        crate::memory::words_apart(seq),
        crate::memory::span_words(seq) <= crate::read::room(key_size),
        crate::memory::span(val, env, env.len())->0 <= crate::read::room(val_size),
        crate::memory::earlier(block, base),
        d.len() <= u64::MAX,
        crate::read::read_entries(
            n,
            seq,
            key_size,
            val,
            val_size,
            insert,
            env,
            d,
            c,
            block,
            off,
            base,
        ) matches Some((ops, end)) && base + ops.len() <= usize::MAX,
    ensures
        held(
            crate::read::read_entries(
                n,
                seq,
                key_size,
                val,
                val_size,
                insert,
                env,
                d,
                c,
                block,
                off,
                base,
            ).unwrap().0,
            block,
            off as int,
            crate::memory::MAP_SIZE as int,
            base,
        ),
    decreases n, val, d.len() + 4 - c,
{
    let h = crate::scan::space_end(d, c);
    if d[h] != crate::ascii::CLOSE_BRACE {
        let size = crate::memory::MAP_SIZE as int;
        let (first, e) = crate::read::read_entry(
            n,
            seq,
            key_size,
            val,
            val_size,
            insert,
            env,
            d,
            h,
            block,
            off,
            base,
        )->0;
        let next = crate::read::comma_end(d, e)->0;
        let rest = crate::read::read_entries(
            n,
            seq,
            key_size,
            val,
            val_size,
            insert,
            env,
            d,
            next,
            block,
            off,
            base + first.len(),
        ).unwrap().0;
        // The key.
        let heap = Block::Heap(base as usize);
        let (key, ke) = crate::read::read_str(seq, d, h, heap, 0, base + 1)->0;
        let (start, quote) = crate::scan::span(d, h);
        let bytes = crate::read::span_bytes(d, start, quote)->0;
        lemma_short(d, start, quote);
        let (copy, to) = crate::interp::copy_ops(bytes, base + 1);
        crate::memory::lemma_seq_words(mem, seq, heap, 0, to, bytes.len());
        let words = crate::interp::seq_words(seq, heap, 0, to, bytes.len())->Ok_0;
        let width = crate::memory::span_words(seq);
        lemma_copied(bytes, words, heap, 0, width, base + 1);
        let key_room = crate::read::room(key_size);
        lemma_wider(key, heap, 0, width, 0, key_room as int, base + 1);
        let none = Seq::<OpV>::empty();
        lemma_block(key_room as int, crate::read::SLOT_ALIGN, key, none, block, off as int, size, base);
        let one = seq![OpV::Alloc { size: key_room, align: crate::read::SLOT_ALIGN }] + key;
        assert(one + none =~= one);
        // The value.
        let slot = base + 1 + key.len();
        let cell = Block::Heap(slot as usize);
        let at = crate::scan::space_end(d, ke) + 1;
        let ops = crate::read::read(n, val, env, d, at, cell, 0, slot + 1).unwrap().0;
        lemma_read(n, val, env, d, at, cell, 0, slot + 1, mem);
        let val_room = crate::read::room(val_size);
        lemma_wider(
            ops,
            cell,
            0,
            crate::memory::span(val, env, env.len())->0,
            0,
            val_room as int,
            slot + 1,
        );
        let last = OpV::MapInsert {
            block,
            off,
            key: base as usize,
            val: slot as usize,
            at: insert,
        };
        lemma_map_op(last, block, off, slot);
        lemma_block(
            val_room as int,
            crate::read::SLOT_ALIGN,
            ops,
            seq![last],
            block,
            off as int,
            size,
            slot,
        );
        let two = seq![OpV::Alloc { size: val_room, align: crate::read::SLOT_ALIGN }] + ops + seq![last];
        lemma_join(one, two, block, off as int, size, base);
        assert(first =~= one + two);
        // Those after it.
        lemma_read_entries(
            n,
            seq,
            key_size,
            val,
            val_size,
            insert,
            env,
            d,
            next,
            block,
            off,
            base + first.len(),
            mem,
        );
        lemma_join(first, rest, block, off as int, size, base);
    }
}

#[verifier::spinoff_prover]
proof fn lemma_read_members(
    n: nat,
    fields: Seq<FieldV>,
    env: Scope,
    d: Seq<u8>,
    c: int,
    block: Block,
    off: u64,
    base: nat,
    mem: Mem,
)
    requires
        fields_laid(fields, env),
        crate::memory::earlier(block, base),
        d.len() <= u64::MAX,
        crate::read::read_members(n, fields, env, d, c, block, off, base) matches Some((ops, end)) && base
            + ops.len() <= usize::MAX,
    ensures
        held(
            crate::read::read_members(n, fields, env, d, c, block, off, base).unwrap().0,
            block,
            off as int,
            fields_span(fields, env),
            base,
        ),
    decreases n, fields, d.len() + 2 - c,
{
    let h = crate::scan::space_end(d, c);
    if d[h] != crate::ascii::CLOSE_BRACE {
        let (first, e) = crate::read::read_member(n, fields, env, d, h, block, off, base)->0;
        let next = crate::read::comma_end(d, e)->0;
        let rest = crate::read::read_members(
            n,
            fields,
            env,
            d,
            next,
            block,
            off,
            base + first.len(),
        ).unwrap().0;
        let (start, quote) = crate::scan::span(d, h);
        if let Some(k) = crate::read::field_at(fields, 0, d.subrange(start, quote)) {
            let f = fields[k as int];
            let p = (off + f.offset) as u64;
            lemma_field(fields, env, k as int, true);
            lemma_read(
                n,
                f.ty,
                env,
                d,
                crate::scan::space_end(d, quote + 1) + 1,
                block,
                p,
                base,
                mem,
            );
            lemma_wider(
                first,
                block,
                p as int,
                crate::memory::field_span(f, env),
                off as int,
                fields_span(fields, env),
                base,
            );
        }
        lemma_read_members(n, fields, env, d, next, block, off, base + first.len(), mem);
        lemma_join(first, rest, block, off as int, fields_span(fields, env), base);
    }
}

#[verifier::spinoff_prover]
proof fn lemma_read_tuple(
    n: nat,
    fields: Seq<FieldV>,
    k: nat,
    env: Scope,
    d: Seq<u8>,
    c: int,
    block: Block,
    off: u64,
    base: nat,
    mem: Mem,
)
    requires
        fields_laid(fields, env),
        crate::memory::earlier(block, base),
        d.len() <= u64::MAX,
        crate::read::read_tuple(n, fields, k, env, d, c, block, off, base) matches Some(ops) && base
            + ops.len() <= usize::MAX,
    ensures
        held(
            crate::read::read_tuple(n, fields, k, env, d, c, block, off, base)->0,
            block,
            off as int,
            fields_span(fields, env),
            base,
        ),
    decreases n, fields, fields.len() - k,
{
    let h = crate::scan::space_end(d, c);
    if k < fields.len() && d[h] != crate::ascii::CLOSE_BRACKET {
        let f = fields[k as int];
        let p = (off + f.offset) as u64;
        let (first, e) = crate::read::read(n, f.ty, env, d, h, block, p, base)->0;
        let next = crate::read::comma_end(d, e)->0;
        let rest = crate::read::read_tuple(
            n,
            fields,
            k + 1,
            env,
            d,
            next,
            block,
            off,
            base + first.len(),
        )->0;
        lemma_field(fields, env, k as int, true);
        lemma_read(n, f.ty, env, d, h, block, p, base, mem);
        lemma_wider(
            first,
            block,
            p as int,
            crate::memory::field_span(f, env),
            off as int,
            fields_span(fields, env),
            base,
        );
        lemma_read_tuple(n, fields, k + 1, env, d, next, block, off, base + first.len(), mem);
        lemma_join(first, rest, block, off as int, fields_span(fields, env), base);
    }
}

#[verifier::spinoff_prover]
proof fn lemma_read_items(
    n: nat,
    elem: TyV,
    i: nat,
    k: nat,
    env: Scope,
    d: Seq<u8>,
    c: int,
    elem_size: u64,
    heap: Block,
    base: nat,
    mem: Mem,
)
    requires
        well_laid(elem, env, true),
        crate::memory::span(elem, env, env.len())->0 <= elem_size,
        k * elem_size <= u64::MAX,
        crate::memory::earlier(heap, base),
        d.len() <= u64::MAX,
        crate::read::read_items(n, elem, i, k, env, d, c, elem_size, heap, base) matches Some((ops, end))
            && base + ops.len() <= usize::MAX,
    ensures
        held(
            crate::read::read_items(n, elem, i, k, env, d, c, elem_size, heap, base).unwrap().0,
            heap,
            0,
            k * elem_size,
            base,
        ),
    decreases n, elem, (k - i) + 1,
{
    if i < k {
        let block = heap;
        let size = crate::memory::span(elem, env, env.len())->0;
        crate::memory::lemma_span_more(elem, env, env.len(), env.len());
        lemma_item(i, k, elem_size, size);
        let at = (i * elem_size) as u64;
        let h = crate::scan::space_end(d, c);
        let (first, e) = crate::read::read(n, elem, env, d, h, block, at, base)->0;
        let next = crate::read::comma_end(d, e)->0;
        let rest = crate::read::read_items(
            n,
            elem,
            i + 1,
            k,
            env,
            d,
            next,
            elem_size,
            heap,
            base + first.len(),
        ).unwrap().0;
        lemma_read(n, elem, env, d, h, block, at, base, mem);
        lemma_wider(first, block, at as int, size, 0, k * elem_size, base);
        lemma_read_items(n, elem, i + 1, k, env, d, next, elem_size, heap, base + first.len(), mem);
        lemma_join(first, rest, block, 0, k * elem_size, base);
    }
}

/// Whatever the text, reading it as a type writes nowhere but within the
/// destination's value and within blocks that it has allocated; this of every type
/// that [`crate::reading::law_read_shows`] is about, whose boxed values fit in their
/// blocks, and whose integers have room for what they are stored in.
pub proof fn law_read_in_bounds(n: nat, ty: TyV, d: Seq<u8>)
    requires
        crate::memory::no_overlap(ty, Seq::empty()),
        crate::memory::span(ty, Seq::empty(), 0) is Some,
        roomy(ty, Seq::empty(), true),
        d.len() <= u64::MAX,
        crate::read::read(n, ty, Seq::empty(), d, 0, Block::Dest, 0, 0) matches Some((ops, end))
            && ops.len() <= usize::MAX,
    ensures
        held(
            crate::read::read(n, ty, Seq::empty(), d, 0, Block::Dest, 0, 0).unwrap().0,
            Block::Dest,
            0,
            crate::memory::span(ty, Seq::empty(), 0)->0,
            0,
        ),
{
    assert(crate::memory::scope_ok(Seq::empty()));
    assert(roomy_scope(Seq::empty(), true));
    lemma_read(n, ty, Seq::empty(), d, 0, Block::Dest, 0, 0, |b: Block, i: int| None);
}

} // verus!
