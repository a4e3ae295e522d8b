//! Binding a parsed value to a layout. Given a [`Ty`], a [`Json`] value and a
//! destination, [`run`] lists the writes that lay the value out in memory:
//! structs field by field, `String`, `Vec` and `&str` with allocations of their
//! own and their words at the recorded offsets.
use crate::arith::{le_bytes, power_of_two, unsigned_of};
use crate::json::Json;
use crate::json::JsonV;
use crate::plan::{FieldTy, FieldV, SeqLayout, Site, Ty, TyV};
use crate::text::{bytes_of, chars_of};
use vstd::prelude::*;
use vstd::string::*;
use vstd::utf8::*;

verus! {

/// A piece of memory: the destination, what the allocation at that position of the
/// list of writes returned, or nothing.
#[derive(Clone, Copy, PartialEq, Eq, Structural, Debug)]
pub enum Block {
    Dest,
    Heap(usize),
    /// Where nothing is: an address of an alignment, for what takes up nothing.
    Nowhere(u64),
}

/// One step of laying a value out.
#[derive(Debug)]
pub enum Op {
    /// Allocate a block.
    Alloc { size: u64, align: u64 },
    /// Set `len` bytes to zero.
    Zero { block: Block, off: u64, len: u64 },
    /// Write bytes.
    Bytes { block: Block, off: u64, bytes: Vec<u8> },
    /// Write the floating-point number that `text` writes down, in `width`
    /// bytes.
    Float { block: Block, off: u64, text: String, width: u8 },
    /// Write the eight-byte address of an allocated block.
    Ptr { block: Block, off: u64, to: usize },
}

/// What an [`Op`] says.
pub enum OpV {
    Alloc { size: u64, align: u64 },
    Zero { block: Block, off: u64, len: u64 },
    Bytes { block: Block, off: u64, bytes: Seq<u8> },
    Float { block: Block, off: u64, text: Seq<char>, width: u8 },
    Ptr { block: Block, off: u64, to: usize },
    /// An empty map is made by the function at an address.
    MapNew { block: Block, off: u64, at: u64 },
    /// The function at an address moves a key and a value into a map, each from the
    /// start of an allocated block.
    MapInsert { block: Block, off: u64, key: usize, val: usize, at: u64 },
}

impl View for Op {
    type V = OpV;

    open spec fn view(&self) -> OpV {
        match *self {
            Op::Alloc { size, align } => OpV::Alloc { size, align },
            Op::Zero { block, off, len } => OpV::Zero { block, off, len },
            Op::Bytes { block, off, bytes } => OpV::Bytes { block, off, bytes: bytes@ },
            Op::Float { block, off, text, width } => OpV::Float { block, off, text: text@, width },
            Op::Ptr { block, off, to } => OpV::Ptr { block, off, to },
        }
    }
}

/// What a list of writes says.
pub open spec fn ops_view(v: Seq<Op>) -> Seq<OpV> {
    Seq::new(v.len(), |k: int| v[k]@)
}

/// Why a value does not bind.
#[derive(Debug)]
pub enum BindError {
    /// A struct's field has no member of its name, and is no `Option`.
    MissingKey { key: String, name: String },
    NotArray,
    NotString,
    NotInteger,
    NotNumber,
    /// An integer or a discriminant wider than sixteen bytes.
    Width,
    /// An allocation with a size or alignment that no allocator accepts.
    Layout,
    /// An offset that no address can hold.
    Offset,
    /// A back-edge that leads to itself without taking any of the value.
    Endless,
    /// A back-edge to a type that does not enclose it.
    Unbound,
    /// A map, which takes more than writes to build.
    Tree,
    /// A type that cannot be bound.
    Unknown(String),
}

/// What a [`BindError`] says.
pub enum BindErrorV {
    MissingKey { key: Seq<char>, name: Seq<char> },
    NotArray,
    NotString,
    NotInteger,
    NotNumber,
    Width,
    Layout,
    Offset,
    Endless,
    Unbound,
    Tree,
    Unknown(Seq<char>),
}

impl View for BindError {
    type V = BindErrorV;

    open spec fn view(&self) -> BindErrorV {
        match *self {
            BindError::MissingKey { key, name } => BindErrorV::MissingKey { key: key@, name: name@ },
            BindError::NotArray => BindErrorV::NotArray,
            BindError::NotString => BindErrorV::NotString,
            BindError::NotInteger => BindErrorV::NotInteger,
            BindError::NotNumber => BindErrorV::NotNumber,
            BindError::Width => BindErrorV::Width,
            BindError::Layout => BindErrorV::Layout,
            BindError::Offset => BindErrorV::Offset,
            BindError::Endless => BindErrorV::Endless,
            BindError::Unbound => BindErrorV::Unbound,
            BindError::Tree => BindErrorV::Tree,
            BindError::Unknown(what) => BindErrorV::Unknown(what@),
        }
    }
}

/// The enclosing recursive types, the outermost first.
pub type Scope = Seq<(Site, TyV)>;

/// The innermost of the first `n` enclosing types that has that site.
pub open spec fn find_site(env: Scope, n: nat, site: Site) -> Option<nat>
    decreases n,
{
    if n == 0 || n > env.len() {
        None
    } else if env[n - 1].0 == site {
        Some((n - 1) as nat)
    } else {
        find_site(env, (n - 1) as nat, site)
    }
}

/// A found position lies among those searched, and has that site.
pub proof fn lemma_find_site(env: Scope, n: nat, site: Site)
    ensures
        find_site(env, n, site) matches Some(i) ==> i < n && i < env.len() && env[i as int].0 == site,
    decreases n,
{
    if !(n == 0 || n > env.len()) && env[n - 1].0 != site {
        lemma_find_site(env, (n - 1) as nat, site);
    }
}

/// The offset `d` further on.
pub open spec fn further(off: u64, d: int) -> Option<u64> {
    if off + d <= u64::MAX {
        Some((off + d) as u64)
    } else {
        None
    }
}

/// Whether an allocator accepts that size and alignment.
pub open spec fn layout_ok(size: int, align: int) -> bool {
    crate::arith::is_pow2(align as nat) && size <= isize::MAX - (align - 1)
}

/// Whether `n` items of a size and alignment have room: they take up nothing, or an
/// allocator accepts what they take up.
pub open spec fn room_ok(n: nat, size: u64, align: u64) -> bool {
    n * size == 0 || layout_ok(n * size, align as int)
}

/// Where something of a size and alignment is put that is not part of anything else:
/// in a block of its own, which the `base`th write allocates; nowhere, where it takes
/// up nothing.
pub open spec fn home(size: int, align: u64, base: nat) -> Block {
    if size == 0 {
        Block::Nowhere(align)
    } else {
        Block::Heap(base as usize)
    }
}

/// The writes that make that block.
pub open spec fn home_ops(size: int, align: u64) -> Seq<OpV> {
    if size == 0 {
        Seq::empty()
    } else {
        seq![OpV::Alloc { size: size as u64, align }]
    }
}

/// What points to it.
pub open spec fn home_ptr(size: int, align: u64, base: nat) -> Result<usize, u64> {
    if size == 0 {
        Err(align)
    } else {
        Ok(base as usize)
    }
}

/// Bytes written at one place.
pub open spec fn put(block: Block, off: u64, bytes: Seq<u8>) -> OpV {
    OpV::Bytes { block, off, bytes }
}

/// An eight-byte word.
pub open spec fn word(x: nat) -> Seq<u8> {
    crate::arith::le(x, 8)
}

/// What a data pointer holds: the address of an allocated block or, where
/// nothing was allocated, the alignment itself.
pub open spec fn pointer(block: Block, off: u64, to: Result<usize, u64>) -> OpV {
    match to {
        Ok(k) => OpV::Ptr { block, off, to: k },
        Err(align) => put(block, off, word(align as nat)),
    }
}

/// The pointer, capacity and length words of a `Vec`-like value whose `n` items
/// lie behind `to`.
pub open spec fn seq_words(
    seq: SeqLayout,
    block: Block,
    off: u64,
    to: Result<usize, u64>,
    n: nat,
) -> Result<Seq<OpV>, BindErrorV> {
    match (
        further(off, seq.ptr_off as int),
        further(off, seq.cap_off as int),
        further(off, seq.len_off as int),
    ) {
        (Some(p), Some(c), Some(l)) => if n > u64::MAX {
            Err(BindErrorV::Layout)
        } else {
            Ok(seq![pointer(block, p, to), put(block, c, word(n)), put(block, l, word(n))])
        },
        _ => Err(BindErrorV::Offset),
    }
}

/// Bytes with an allocation of their own, which is the `base`th write: the
/// writes that make it, and what points to it. No bytes take no allocation.
pub open spec fn copy_ops(bytes: Seq<u8>, base: nat) -> (Seq<OpV>, Result<usize, u64>) {
    if bytes.len() == 0 {
        (Seq::empty(), Err(1))
    } else {
        (
            seq![
                OpV::Alloc { size: bytes.len() as u64, align: 1 },
                put(Block::Heap(base as usize), 0, bytes),
            ],
            Ok(base as usize),
        )
    }
}

/// The first character of a string, or NUL where it has none.
pub open spec fn first_char(s: Seq<char>) -> char {
    if s.len() == 0 {
        '\0'
    } else {
        s[0]
    }
}

/// The writes for an `Option` that holds nothing: zeros, and over them the
/// discriminant of `None`.
pub open spec fn none_ops(
    disc_off: usize,
    disc_size: u8,
    none_discr: u128,
    size: u64,
    block: Block,
    off: u64,
) -> Result<Seq<OpV>, BindErrorV> {
    match further(off, disc_off as int) {
        None => Err(BindErrorV::Offset),
        Some(d) => if disc_size > 16 {
            Err(BindErrorV::Width)
        } else {
            Ok(
                seq![
                    OpV::Zero { block, off, len: size },
                    put(block, d, crate::arith::le(none_discr as nat, disc_size as nat)),
                ],
            )
        },
    }
}

/// The writes for a field that the value has no member for: nothing where the
/// field's type is no `Option`.
pub open spec fn absent(ty: TyV, env: Scope, limit: nat, block: Block, off: u64) -> Option<
    Result<Seq<OpV>, BindErrorV>,
>
    decreases limit, ty,
{
    match ty {
        TyV::Opt { disc_off, disc_size, none_discr, some_discr, payload_off, size, inner } => Some(
            none_ops(disc_off, disc_size, none_discr, size, block, off),
        ),
        TyV::Rec { site, body } => absent(*body, env.push((site, *body)), limit, block, off),
        TyV::Ref(site) => match find_site(env, env.len(), site) {
            Some(i) => if i < limit {
                absent(env[i as int].1, env.take((i + 1) as int), i, block, off)
            } else {
                None
            },
            None => None,
        },
        _ => None,
    }
}

/// The writes that lay `v` out as a `ty` at an offset in a block, where `base`
/// writes come before them; or why it cannot be done.
///
/// `env` holds the enclosing recursive types. A back-edge may lead to those
/// among the first `limit`; the rest have been entered since the value last
/// became smaller.
pub open spec fn bind(
    ty: TyV,
    env: Scope,
    limit: nat,
    v: JsonV,
    block: Block,
    off: u64,
    base: nat,
) -> Result<Seq<OpV>, BindErrorV>
    decreases v, limit, ty, 0nat,
{
    match ty {
        TyV::Bool => Ok(
            seq![
                put(
                    block,
                    off,
                    seq![
                        if v == JsonV::Bool(true) {
                            1u8
                        } else {
                            0u8
                        },
                    ],
                ),
            ],
        ),
        TyV::Char => match v {
            JsonV::Str(s) => Ok(seq![put(block, off, crate::arith::le(first_char(s) as nat, 4))]),
            _ => Err(BindErrorV::NotString),
        },
        TyV::U(n) => match crate::json::u128_of(v) {
            None => Err(BindErrorV::NotInteger),
            Some(x) => if n > 16 {
                Err(BindErrorV::Width)
            } else {
                Ok(seq![put(block, off, crate::arith::le(x, n as nat))])
            },
        },
        TyV::I(n) => match crate::json::i128_of(v) {
            None => Err(BindErrorV::NotInteger),
            Some(x) => if n > 16 {
                Err(BindErrorV::Width)
            } else {
                Ok(seq![put(block, off, crate::arith::le(crate::arith::as_unsigned(x), n as nat))])
            },
        },
        TyV::F32 => match v {
            JsonV::Num(text) => Ok(seq![OpV::Float { block, off, text, width: 4 }]),
            _ => Err(BindErrorV::NotNumber),
        },
        TyV::F64 => match v {
            JsonV::Num(text) => Ok(seq![OpV::Float { block, off, text, width: 8 }]),
            _ => Err(BindErrorV::NotNumber),
        },
        TyV::Unit => Ok(Seq::empty()),
        TyV::Struct { name, fields } => bind_fields(name, fields, 0, env, v, block, off, base),
        TyV::Tuple { fields } => match v {
            JsonV::Array(items) => bind_tuple(fields, 0, env, items, block, off, base),
            _ => Err(BindErrorV::NotArray),
        },
        TyV::Str(seq) => match v {
            JsonV::Str(s) => {
                let bytes = encode_utf8(s);
                let (ops, to) = copy_ops(bytes, base);
                match seq_words(seq, block, off, to, bytes.len()) {
                    Ok(words) => Ok(ops + words),
                    Err(e) => Err(e),
                }
            },
            _ => Err(BindErrorV::NotString),
        },
        TyV::StrRef { ptr_off, len_off } => match v {
            JsonV::Str(s) => {
                let bytes = encode_utf8(s);
                let (ops, to) = copy_ops(bytes, base);
                match (further(off, ptr_off as int), further(off, len_off as int)) {
                    (Some(p), Some(l)) => if bytes.len() > u64::MAX {
                        Err(BindErrorV::Layout)
                    } else {
                        Ok(ops + seq![pointer(block, p, to), put(block, l, word(bytes.len()))])
                    },
                    _ => Err(BindErrorV::Offset),
                }
            },
            _ => Err(BindErrorV::NotString),
        },
        TyV::Vec { elem, elem_size, elem_align, seq } => match v {
            JsonV::Array(items) => {
                let align = if elem_align == 0 {
                    1
                } else {
                    elem_align
                };
                if !room_ok(items.len(), elem_size, align) {
                    Err(BindErrorV::Layout)
                } else {
                    let size = items.len() * elem_size;
                    let pre = home_ops(size, align);
                    match bind_items(
                        *elem,
                        0,
                        env,
                        items,
                        elem_size,
                        home(size, align, base),
                        base + pre.len(),
                    ) {
                        Err(e) => Err(e),
                        Ok(ops) => match seq_words(seq, block, off, home_ptr(size, align, base), items.len()) {
                            Ok(words) => Ok(pre + ops + words),
                            Err(e) => Err(e),
                        },
                    }
                }
            },
            _ => Err(BindErrorV::NotArray),
        },
        TyV::Opt { disc_off, disc_size, none_discr, some_discr, payload_off, size, inner } => if v
            == JsonV::Null {
            none_ops(disc_off, disc_size, none_discr, size, block, off)
        } else {
            match further(off, payload_off as int) {
                None => Err(BindErrorV::Offset),
                Some(p) => match bind(*inner, env, limit, v, block, p, base) {
                    Err(e) => Err(e),
                    Ok(ops) => match some_discr {
                        None => Ok(ops),
                        Some(discr) => match further(off, disc_off as int) {
                            None => Err(BindErrorV::Offset),
                            Some(d) => if disc_size > 16 {
                                Err(BindErrorV::Width)
                            } else {
                                Ok(
                                    ops.push(
                                        put(
                                            block,
                                            d,
                                            crate::arith::le(discr as nat, disc_size as nat),
                                        ),
                                    ),
                                )
                            },
                        },
                    },
                },
            }
        },
        TyV::Boxed { inner, size, align } => if !layout_ok(size as int, align as int) {
            Err(BindErrorV::Layout)
        } else {
            let pre = home_ops(size as int, align);
            match bind(*inner, env, limit, v, home(size as int, align, base), 0, base + pre.len()) {
                Err(e) => Err(e),
                Ok(ops) => Ok(pre + ops + seq![pointer(block, off, home_ptr(size as int, align, base))]),
            }
        },
        TyV::Rec { site, body } => bind(
            *body,
            env.push((site, *body)),
            limit,
            v,
            block,
            off,
            base,
        ),
        TyV::Ref(site) => match find_site(env, env.len(), site) {
            None => Err(BindErrorV::Unbound),
            Some(i) => if i < limit {
                bind(env[i as int].1, env.take((i + 1) as int), i, v, block, off, base)
            } else {
                Err(BindErrorV::Endless)
            },
        },
        TyV::BTreeMap { .. } => Err(BindErrorV::Tree),
        TyV::Unknown(what) => Err(BindErrorV::Unknown(what)),
    }
}

/// The writes for a struct's fields from the `k`th on, each from the member of
/// its name.
pub open spec fn bind_fields(
    name: Seq<char>,
    fields: Seq<FieldV>,
    k: nat,
    env: Scope,
    v: JsonV,
    block: Block,
    off: u64,
    base: nat,
) -> Result<Seq<OpV>, BindErrorV>
    decreases v, 0nat, fields, fields.len() - k,
{
    if k >= fields.len() {
        Ok(Seq::empty())
    } else {
        let f = fields[k as int];
        match further(off, f.offset as int) {
            None => Err(BindErrorV::Offset),
            Some(at) => {
                let first = match crate::json::get_of(v, f.name) {
                    Some(sub) => {
                        proof {
                            crate::json::lemma_get_of(v, f.name);
                        }
                        bind(f.ty, env, env.len(), sub, block, at, base)
                    },
                    None => match absent(f.ty, env, env.len(), block, at) {
                        Some(ops) => ops,
                        None => Err(BindErrorV::MissingKey { key: f.name, name }),
                    },
                };
                match first {
                    Err(e) => Err(e),
                    Ok(ops) => match bind_fields(
                        name,
                        fields,
                        k + 1,
                        env,
                        v,
                        block,
                        off,
                        base + ops.len(),
                    ) {
                        Err(e) => Err(e),
                        Ok(more) => Ok(ops + more),
                    },
                }
            },
        }
    }
}

/// The writes for a tuple's fields from the `k`th on, each from the item at its
/// position, as far as there are both.
pub open spec fn bind_tuple(
    fields: Seq<FieldV>,
    k: nat,
    env: Scope,
    items: Seq<JsonV>,
    block: Block,
    off: u64,
    base: nat,
) -> Result<Seq<OpV>, BindErrorV>
    decreases items, 0nat, fields, fields.len() - k,
{
    if k >= fields.len() || k >= items.len() {
        Ok(Seq::empty())
    } else {
        let f = fields[k as int];
        match further(off, f.offset as int) {
            None => Err(BindErrorV::Offset),
            Some(at) => match bind(f.ty, env, env.len(), items[k as int], block, at, base) {
                Err(e) => Err(e),
                Ok(ops) => match bind_tuple(
                    fields,
                    k + 1,
                    env,
                    items,
                    block,
                    off,
                    base + ops.len(),
                ) {
                    Err(e) => Err(e),
                    Ok(more) => Ok(ops + more),
                },
            },
        }
    }
}

/// The writes for the items from the `k`th on, one after the other in the block
/// that the write at `heap` allocated.
pub open spec fn bind_items(
    elem: TyV,
    k: nat,
    env: Scope,
    items: Seq<JsonV>,
    elem_size: u64,
    heap: Block,
    base: nat,
) -> Result<Seq<OpV>, BindErrorV>
    decreases items, 0nat, elem, items.len() - k,
{
    if k >= items.len() {
        Ok(Seq::empty())
    } else {
        match bind(
            elem,
            env,
            env.len(),
            items[k as int],
            heap,
            (k * elem_size) as u64,
            base,
        ) {
            Err(e) => Err(e),
            Ok(ops) => match bind_items(
                elem,
                k + 1,
                env,
                items,
                elem_size,
                heap,
                base + ops.len(),
            ) {
                Err(e) => Err(e),
                Ok(more) => Ok(ops + more),
            },
        }
    }
}

/// The enclosing recursive types that a list holds.
pub open spec fn env_view(env: Seq<(Site, &Ty)>) -> Scope {
    Seq::new(env.len(), |k: int| (env[k].0, env[k].1@))
}

/// What a function that appends writes has done, where `want` says what it was
/// to append.
pub open spec fn appended(
    want: Result<Seq<OpV>, BindErrorV>,
    before: Seq<Op>,
    after: Seq<Op>,
    r: Result<(), BindError>,
) -> bool {
    match want {
        Ok(ops) => r is Ok && ops_view(after) == ops_view(before) + ops,
        Err(e) => r is Err && r->Err_0@ == e,
    }
}

fn emit(out: &mut Vec<Op>, op: Op)
    ensures
        ops_view(final(out)@) == ops_view(old(out)@).push(op@),
        final(out)@.len() == old(out)@.len() + 1,
{
    out.push(op);
    assert(ops_view(out@) =~= ops_view(old(out)@).push(op@));
}

fn emit_bytes(out: &mut Vec<Op>, block: Block, off: u64, bytes: Vec<u8>)
    ensures
        ops_view(final(out)@) == ops_view(old(out)@).push(put(block, off, bytes@)),
        final(out)@.len() == old(out)@.len() + 1,
{
    emit(out, Op::Bytes { block, off, bytes });
}

fn add_off(off: u64, d: usize) -> (r: Option<u64>)
    ensures
        r == further(off, d as int),
{
    off.checked_add(d as u64)
}

fn allocatable(size: u64, align: u64) -> (r: bool)
    ensures
        r == layout_ok(size as int, align as int),
{
    power_of_two(align) && size as u128 + align as u128 <= isize::MAX as u128 + 1
}

fn emit_pointer(out: &mut Vec<Op>, block: Block, off: u64, to: Result<usize, u64>)
    ensures
        ops_view(final(out)@) == ops_view(old(out)@).push(pointer(block, off, to)),
        final(out)@.len() == old(out)@.len() + 1,
{
    match to {
        Ok(k) => emit(out, Op::Ptr { block, off, to: k }),
        Err(align) => emit_bytes(out, block, off, le_bytes(align as u128, 8)),
    }
}

fn write_seq(
    out: &mut Vec<Op>,
    seq: &SeqLayout,
    block: Block,
    off: u64,
    to: Result<usize, u64>,
    n: usize,
) -> (r: Result<(), BindError>)
    ensures
        appended(seq_words(*seq, block, off, to, n as nat), old(out)@, final(out)@, r),
{
    match (add_off(off, seq.ptr_off), add_off(off, seq.cap_off), add_off(off, seq.len_off)) {
        (Some(p), Some(c), Some(l)) => {
            emit_pointer(out, block, p, to);
            emit_bytes(out, block, c, le_bytes(n as u128, 8));
            emit_bytes(out, block, l, le_bytes(n as u128, 8));
            assert(ops_view(out@) =~= ops_view(old(out)@) + seq![
                pointer(block, p, to),
                put(block, c, word(n as nat)),
                put(block, l, word(n as nat)),
            ]);
            Ok(())
        },
        _ => Err(BindError::Offset),
    }
}

fn alloc_copy(out: &mut Vec<Op>, text: &str) -> (r: (Result<usize, u64>, usize))
    ensures
        ({
            let bytes = encode_utf8(text@);
            let (ops, to) = copy_ops(bytes, old(out)@.len());
            &&& r.0 == to
            &&& r.1 == bytes.len()
            &&& ops_view(final(out)@) == ops_view(old(out)@) + ops
        }),
{
    let bytes: Vec<u8> = bytes_of(text);
    let n: usize = bytes.len();
    if n == 0 {
        assert(ops_view(out@) + Seq::<OpV>::empty() =~= ops_view(out@));
        return (Err(1), 0);
    }
    let heap: usize = out.len();
    emit(out, Op::Alloc { size: n as u64, align: 1 });
    emit_bytes(out, Block::Heap(heap), 0, bytes);
    assert(ops_view(out@) =~= ops_view(old(out)@) + copy_ops(
        encode_utf8(text@),
        old(out)@.len(),
    ).0);
    (Ok(heap), n)
}

fn write_none(
    out: &mut Vec<Op>,
    disc_off: usize,
    disc_size: u8,
    none_discr: u128,
    size: u64,
    block: Block,
    off: u64,
) -> (r: Result<(), BindError>)
    ensures
        appended(
            none_ops(disc_off, disc_size, none_discr, size, block, off),
            old(out)@,
            final(out)@,
            r,
        ),
{
    match add_off(off, disc_off) {
        None => Err(BindError::Offset),
        Some(d) => {
            if disc_size > 16 {
                return Err(BindError::Width);
            }
            emit(out, Op::Zero { block, off, len: size });
            emit_bytes(out, block, d, le_bytes(none_discr, disc_size));
            assert(ops_view(out@) =~= ops_view(old(out)@) + seq![
                OpV::Zero { block, off, len: size },
                put(block, d, crate::arith::le(none_discr as nat, disc_size as nat)),
            ]);
            Ok(())
        },
    }
}

fn lookup(env: &Vec<(Site, &Ty)>, site: Site) -> (r: Option<usize>)
    ensures
        match find_site(env_view(env@), env@.len(), site) {
            Some(i) => r is Some && r->0 == i && i < env@.len(),
            None => r is None,
        },
{
    let mut n: usize = env.len();
    while n > 0
        invariant
            n <= env@.len(),
            find_site(env_view(env@), env@.len(), site) == find_site(
                env_view(env@),
                n as nat,
                site,
            ),
        decreases n,
    {
        if env[n - 1].0 == site {
            return Some(n - 1);
        }
        n = n - 1;
    }
    None
}

fn enclosing<'a>(env: &Vec<(Site, &'a Ty)>, n: usize) -> (r: Vec<(Site, &'a Ty)>)
    requires
        n <= env@.len(),
    ensures
        r@ == env@.take(n as int),
        env_view(r@) == env_view(env@).take(n as int),
{
    let mut out: Vec<(Site, &'a Ty)> = Vec::new();
    let mut k: usize = 0;
    while k < n
        invariant
            k <= n <= env@.len(),
            out@ == env@.take(k as int),
        decreases n - k,
    {
        out.push(env[k]);
        assert(out@ =~= env@.take(k + 1));
        k = k + 1;
    }
    assert(env_view(out@) =~= env_view(env@).take(n as int));
    out
}

fn entered<'a>(env: &Vec<(Site, &'a Ty)>, site: Site, body: &'a Ty) -> (r: Vec<(Site, &'a Ty)>)
    ensures
        env_view(r@) == env_view(env@).push((site, body@)),
{
    let mut out: Vec<(Site, &'a Ty)> = enclosing(env, env.len());
    out.push((site, body));
    assert(env_view(out@) =~= env_view(env@).push((site, body@)));
    out
}

/// Lists the writes for a field that the value has no member for; nothing where
/// its type is no `Option`.
fn write_absent<'a>(
    out: &mut Vec<Op>,
    ty: &'a Ty,
    env: &Vec<(Site, &'a Ty)>,
    limit: usize,
    block: Block,
    off: u64,
) -> (r: Option<Result<(), BindError>>)
    ensures
        match absent(ty@, env_view(env@), limit as nat, block, off) {
            Some(want) => r is Some && appended(want, old(out)@, final(out)@, r->0),
            None => r is None && final(out)@ == old(out)@,
        },
    decreases limit, ty@,
{
    match ty {
        Ty::Opt { disc_off, disc_size, none_discr, some_discr, payload_off, size, inner } => {
            let done = write_none(out, *disc_off, *disc_size, *none_discr, *size, block, off);
            Some(done)
        },
        Ty::Rec { site, body } => {
            let inside: Vec<(Site, &'a Ty)> = entered(env, *site, body);
            write_absent(out, body, &inside, limit, block, off)
        },
        Ty::Ref(site) => match lookup(env, *site) {
            Some(i) => if i < limit {
                let inside: Vec<(Site, &'a Ty)> = enclosing(env, i + 1);
                assert(env_view(env@)[i as int].1 == env@[i as int].1@);
                write_absent(out, env[i].1, &inside, i, block, off)
            } else {
                None
            },
            None => None,
        },
        _ => None,
    }
}

/// Lists the writes that lay a value out as a `ty` at an offset in a block.
#[verifier::rlimit(30)]
fn run_at<'a>(
    out: &mut Vec<Op>,
    ty: &'a Ty,
    env: &Vec<(Site, &'a Ty)>,
    limit: usize,
    val: &Json,
    block: Block,
    off: u64,
) -> (r: Result<(), BindError>)
    ensures
        appended(
            bind(ty@, env_view(env@), limit as nat, val@, block, off, old(out)@.len()),
            old(out)@,
            final(out)@,
            r,
        ),
    decreases val@, limit, ty@, 0nat,
{
    let ghost start = ops_view(out@);
    match ty {
        Ty::Bool => {
            let byte: u8 = match val {
                Json::Bool(b) => if *b {
                    1
                } else {
                    0
                },
                _ => 0,
            };
            let bytes: Vec<u8> = vec![byte];
            assert(bytes@ =~= seq![byte]);
            emit_bytes(out, block, off, bytes);
            assert(ops_view(out@) =~= start + seq![put(block, off, seq![byte])]);
            Ok(())
        },
        Ty::Char => match val.try_str() {
            Some(s) => {
                let chars: Vec<char> = chars_of(s);
                let c: u32 = if chars.len() == 0 {
                    0
                } else {
                    chars[0] as u32
                };
                emit_bytes(out, block, off, le_bytes(c as u128, 4));
                assert(ops_view(out@) =~= start + seq![
                    put(block, off, crate::arith::le(first_char(s@) as nat, 4)),
                ]);
                Ok(())
            },
            None => Err(BindError::NotString),
        },
        Ty::U(n) => match val.try_u128() {
            None => Err(BindError::NotInteger),
            Some(x) => {
                if *n > 16 {
                    return Err(BindError::Width);
                }
                emit_bytes(out, block, off, le_bytes(x, *n));
                assert(ops_view(out@) =~= start + seq![
                    put(block, off, crate::arith::le(x as nat, *n as nat)),
                ]);
                Ok(())
            },
        },
        Ty::I(n) => match val.try_i128() {
            None => Err(BindError::NotInteger),
            Some(x) => {
                if *n > 16 {
                    return Err(BindError::Width);
                }
                emit_bytes(out, block, off, le_bytes(unsigned_of(x), *n));
                assert(ops_view(out@) =~= start + seq![
                    put(
                        block,
                        off,
                        crate::arith::le(crate::arith::as_unsigned(x as int), *n as nat),
                    ),
                ]);
                Ok(())
            },
        },
        Ty::F32 => write_float(out, val, block, off, 4),
        Ty::F64 => write_float(out, val, block, off, 8),
        Ty::Unit => {
            assert(start + Seq::<OpV>::empty() =~= start);
            Ok(())
        },
        Ty::Struct { name, fields } => run_fields(out, name, fields, env, val, block, off),
        Ty::Tuple { fields } => match val {
            Json::Array(items) => run_tuple(out, fields, env, items, block, off),
            _ => Err(BindError::NotArray),
        },
        Ty::Str(seq) => match val.try_str() {
            Some(s) => {
                let (to, n) = alloc_copy(out, s);
                let ghost mid = ops_view(out@);
                let done = write_seq(out, seq, block, off, to, n);
                proof {
                    if done is Ok {
                        let bytes = encode_utf8(s@);
                        let words = seq_words(*seq, block, off, to, bytes.len())->Ok_0;
                        assert(start + copy_ops(bytes, start.len()).0 + words =~= start + (copy_ops(
                            bytes,
                            start.len(),
                        ).0 + words));
                    }
                }
                done
            },
            None => Err(BindError::NotString),
        },
        Ty::StrRef { ptr_off, len_off } => match val.try_str() {
            Some(s) => {
                let (to, n) = alloc_copy(out, s);
                match (add_off(off, *ptr_off), add_off(off, *len_off)) {
                    (Some(p), Some(l)) => {
                        emit_pointer(out, block, p, to);
                        emit_bytes(out, block, l, le_bytes(n as u128, 8));
                        proof {
                            let bytes = encode_utf8(s@);
                            assert(ops_view(out@) =~= start + (copy_ops(bytes, start.len()).0
                                + seq![
                                pointer(block, p, to),
                                put(block, l, word(bytes.len())),
                            ]));
                        }
                        Ok(())
                    },
                    _ => Err(BindError::Offset),
                }
            },
            None => Err(BindError::NotString),
        },
        Ty::Vec { elem, elem_size, elem_align, seq } => match val {
            Json::Array(items) => run_vec(
                out,
                elem,
                *elem_size,
                *elem_align,
                seq,
                env,
                items,
                block,
                off,
            ),
            _ => Err(BindError::NotArray),
        },
        Ty::Opt { disc_off, disc_size, none_discr, some_discr, payload_off, size, inner } => {
            if let Json::Null = val {
                return write_none(out, *disc_off, *disc_size, *none_discr, *size, block, off);
            }
            match add_off(off, *payload_off) {
                None => Err(BindError::Offset),
                Some(p) => {
                    let done = run_at(out, inner, env, limit, val, block, p);
                    if done.is_err() {
                        return done;
                    }
                    match some_discr {
                        None => Ok(()),
                        Some(discr) => match add_off(off, *disc_off) {
                            None => Err(BindError::Offset),
                            Some(d) => {
                                if *disc_size > 16 {
                                    return Err(BindError::Width);
                                }
                                let ghost mid = ops_view(out@);
                                emit_bytes(out, block, d, le_bytes(*discr, *disc_size));
                                proof {
                                    let ops = bind(
                                        inner@,
                                        env_view(env@),
                                        limit as nat,
                                        val@,
                                        block,
                                        p,
                                        start.len(),
                                    )->Ok_0;
                                    let last = put(
                                        block,
                                        d,
                                        crate::arith::le(*discr as nat, *disc_size as nat),
                                    );
                                    assert((start + ops).push(last) =~= start + ops.push(last));
                                }
                                Ok(())
                            },
                        },
                    }
                },
            }
        },
        Ty::Boxed { inner, size, align } => {
            if !allocatable(*size, *align) {
                return Err(BindError::Layout);
            }
            let at: usize = out.len();
            let (heap, to): (Block, Result<usize, u64>) = if *size == 0 {
                (Block::Nowhere(*align), Err(*align))
            } else {
                emit(out, Op::Alloc { size: *size, align: *align });
                (Block::Heap(at), Ok(at))
            };
            let ghost pre = home_ops(*size as int, *align);
            assert(ops_view(out@) =~= start + pre);
            let done = run_at(out, inner, env, limit, val, heap, 0);
            if done.is_err() {
                return done;
            }
            emit_pointer(out, block, off, to);
            proof {
                let ops = bind(
                    inner@,
                    env_view(env@),
                    limit as nat,
                    val@,
                    heap,
                    0,
                    start.len() + pre.len(),
                )->Ok_0;
                let z = pointer(block, off, to);
                assert((start + pre + ops).push(z) =~= start + (pre + ops + seq![z]));
            }
            Ok(())
        },
        Ty::Rec { site, body } => {
            let inside: Vec<(Site, &'a Ty)> = entered(env, *site, body);
            run_at(out, body, &inside, limit, val, block, off)
        },
        Ty::Ref(site) => match lookup(env, *site) {
            None => Err(BindError::Unbound),
            Some(i) => if i < limit {
                let inside: Vec<(Site, &'a Ty)> = enclosing(env, i + 1);
                assert(env_view(env@)[i as int].1 == env@[i as int].1@);
                run_at(out, env[i].1, &inside, i, val, block, off)
            } else {
                Err(BindError::Endless)
            },
        },
        Ty::BTreeMap { .. } => Err(BindError::Tree),
        Ty::Unknown(what) => Err(BindError::Unknown(what.clone())),
    }
}

fn write_float(out: &mut Vec<Op>, val: &Json, block: Block, off: u64, width: u8) -> (r: Result<
    (),
    BindError,
>)
    ensures
        appended(
            match val@ {
                JsonV::Num(text) => Ok(seq![OpV::Float { block, off, text, width }]),
                _ => Err(BindErrorV::NotNumber),
            },
            old(out)@,
            final(out)@,
            r,
        ),
{
    match val {
        Json::Num(text) => {
            emit(out, Op::Float { block, off, text: text.clone(), width });
            assert(ops_view(out@) =~= ops_view(old(out)@) + seq![
                OpV::Float { block, off, text: text@, width },
            ]);
            Ok(())
        },
        _ => Err(BindError::NotNumber),
    }
}

/// Lists the writes for a struct's fields.
#[verifier::loop_isolation(false)]
fn run_fields<'a>(
    out: &mut Vec<Op>,
    name: &String,
    fields: &'a Vec<FieldTy>,
    env: &Vec<(Site, &'a Ty)>,
    val: &Json,
    block: Block,
    off: u64,
) -> (r: Result<(), BindError>)
    ensures
        appended(
            bind_fields(
                name@,
                crate::plan::fields_view(fields@),
                0,
                env_view(env@),
                val@,
                block,
                off,
                old(out)@.len(),
            ),
            old(out)@,
            final(out)@,
            r,
        ),
    decreases val@, 0nat, crate::plan::fields_view(fields@), fields@.len(),
{
    let ghost start = ops_view(out@);
    let ghost fs = crate::plan::fields_view(fields@);
    let ghost want = bind_fields(name@, fs, 0, env_view(env@), val@, block, off, start.len());
    let mut k: usize = 0;
    while k < fields.len()
        invariant
            k <= fields@.len(),
            fs == crate::plan::fields_view(fields@),
            start.len() <= out@.len(),
            ops_view(out@).take(start.len() as int) == start,
            match bind_fields(name@, fs, k as nat, env_view(env@), val@, block, off, out@.len()) {
                Ok(more) => want == Ok::<Seq<OpV>, BindErrorV>(
                    ops_view(out@).skip(start.len() as int) + more,
                ),
                Err(e) => want == Err::<Seq<OpV>, BindErrorV>(e),
            },
        decreases fields@.len() - k,
    {
        let f = &fields[k];
        let ghost before = ops_view(out@);
        assert(fs[k as int] == f@);
        match add_off(off, f.offset) {
            None => {
                return Err(BindError::Offset);
            },
            Some(at) => match val.get(f.name.as_str()) {
                Some(sub) => {
                    proof {
                        crate::json::lemma_get_of(val@, f.name@);
                    }
                    let done = run_at(out, &f.ty, env, env.len(), sub, block, at);
                    if done.is_err() {
                        return done;
                    }
                },
                None => match write_absent(out, &f.ty, env, env.len(), block, at) {
                    Some(done) => {
                        if done.is_err() {
                            return done;
                        }
                    },
                    None => {
                        return Err(
                            BindError::MissingKey { key: f.name.clone(), name: name.clone() },
                        );
                    },
                },
            },
        }
        proof {
            let ops = ops_view(out@).skip(before.len() as int);
            let at = further(off, f.offset as int)->0;
            let got = match crate::json::get_of(val@, f.name@) {
                Some(sub) => bind(f@.ty, env_view(env@), env@.len(), sub, block, at, before.len()),
                None => absent(f@.ty, env_view(env@), env@.len(), block, at)->0,
            }->Ok_0;
            assert(ops =~= got);
            let s = start.len() as int;
            if let Ok(more) = bind_fields(
                name@,
                fs,
                (k + 1) as nat,
                env_view(env@),
                val@,
                block,
                off,
                out@.len(),
            ) {
                assert(before.skip(s) + (ops + more) =~= ops_view(out@).skip(s) + more);
            }
            assert(ops_view(out@).take(s) =~= start);
        }
        k = k + 1;
    }
    proof {
        let s = start.len() as int;
        assert(ops_view(out@).skip(s) + Seq::<OpV>::empty() =~= ops_view(out@).skip(s));
        assert(ops_view(out@) =~= start + ops_view(out@).skip(s));
    }
    Ok(())
}

/// Lists the writes for a tuple's fields.
#[verifier::loop_isolation(false)]
fn run_tuple<'a>(
    out: &mut Vec<Op>,
    fields: &'a Vec<FieldTy>,
    env: &Vec<(Site, &'a Ty)>,
    items: &Vec<Json>,
    block: Block,
    off: u64,
) -> (r: Result<(), BindError>)
    ensures
        appended(
            bind_tuple(
                crate::plan::fields_view(fields@),
                0,
                env_view(env@),
                crate::json::items_view(items@),
                block,
                off,
                old(out)@.len(),
            ),
            old(out)@,
            final(out)@,
            r,
        ),
    decreases
            crate::json::items_view(items@),
            0nat,
            crate::plan::fields_view(fields@),
            fields@.len(),
{
    let ghost start = ops_view(out@);
    let ghost fs = crate::plan::fields_view(fields@);
    let ghost vs = crate::json::items_view(items@);
    let ghost want = bind_tuple(fs, 0, env_view(env@), vs, block, off, start.len());
    let mut k: usize = 0;
    while k < fields.len() && k < items.len()
        invariant
            k <= fields@.len(),
            k <= items@.len(),
            fs == crate::plan::fields_view(fields@),
            vs == crate::json::items_view(items@),
            start.len() <= out@.len(),
            ops_view(out@).take(start.len() as int) == start,
            match bind_tuple(fs, k as nat, env_view(env@), vs, block, off, out@.len()) {
                Ok(more) => want == Ok::<Seq<OpV>, BindErrorV>(
                    ops_view(out@).skip(start.len() as int) + more,
                ),
                Err(e) => want == Err::<Seq<OpV>, BindErrorV>(e),
            },
        decreases fields@.len() - k,
    {
        let f = &fields[k];
        let ghost before = ops_view(out@);
        assert(fs[k as int] == f@);
        assert(vs[k as int] == items@[k as int]@);
        assert(decreases_to!(vs => vs[k as int]));
        match add_off(off, f.offset) {
            None => {
                return Err(BindError::Offset);
            },
            Some(at) => {
                let done = run_at(out, &f.ty, env, env.len(), &items[k], block, at);
                if done.is_err() {
                    return done;
                }
            },
        }
        proof {
            let ops = ops_view(out@).skip(before.len() as int);
            let at = further(off, f.offset as int)->0;
            let got = bind(f@.ty, env_view(env@), env@.len(), vs[k as int], block, at, before.len())->Ok_0;
            assert(ops =~= got);
            let s = start.len() as int;
            if let Ok(more) = bind_tuple(
                fs,
                (k + 1) as nat,
                env_view(env@),
                vs,
                block,
                off,
                out@.len(),
            ) {
                assert(before.skip(s) + (ops + more) =~= ops_view(out@).skip(s) + more);
            }
            assert(ops_view(out@).take(s) =~= start);
        }
        k = k + 1;
    }
    proof {
        let s = start.len() as int;
        assert(ops_view(out@).skip(s) + Seq::<OpV>::empty() =~= ops_view(out@).skip(s));
        assert(ops_view(out@) =~= start + ops_view(out@).skip(s));
    }
    Ok(())
}

/// Lists the writes for items, one after the other in a block.
#[verifier::loop_isolation(false)]
fn run_items<'a>(
    out: &mut Vec<Op>,
    elem: &'a Ty,
    elem_size: u64,
    env: &Vec<(Site, &'a Ty)>,
    items: &Vec<Json>,
    heap: Block,
) -> (r: Result<(), BindError>)
    requires
        items@.len() * elem_size <= u64::MAX,
    ensures
        appended(
            bind_items(
                elem@,
                0,
                env_view(env@),
                crate::json::items_view(items@),
                elem_size,
                heap,
                old(out)@.len(),
            ),
            old(out)@,
            final(out)@,
            r,
        ),
    decreases crate::json::items_view(items@), 0nat, elem@, items@.len(),
{
    let ghost head = ops_view(out@);
    let ghost vs = crate::json::items_view(items@);
    let n: usize = items.len();
    let ghost want = bind_items(
        elem@,
        0,
        env_view(env@),
        vs,
        elem_size,
        heap,
        head.len(),
    );
    let mut k: usize = 0;
    while k < n
        invariant
            k <= n,
            n == items@.len(),
            n * elem_size <= u64::MAX,
            vs == crate::json::items_view(items@),
            head.len() <= out@.len(),
            ops_view(out@).take(head.len() as int) == head,
            match bind_items(elem@, k as nat, env_view(env@), vs, elem_size, heap, out@.len()) {
                Ok(more) => want == Ok::<Seq<OpV>, BindErrorV>(
                    ops_view(out@).skip(head.len() as int) + more,
                ),
                Err(e) => want == Err::<Seq<OpV>, BindErrorV>(e),
            },
        decreases n - k,
    {
        let ghost before = ops_view(out@);
        assert(vs[k as int] == items@[k as int]@);
        assert(decreases_to!(vs => vs[k as int]));
        assert(0 <= k * elem_size <= n * elem_size) by (nonlinear_arith)
            requires
                0 <= k <= n,
                elem_size >= 0,
        ;
        let done = run_at(
            out,
            elem,
            env,
            env.len(),
            &items[k],
            heap,
            k as u64 * elem_size,
        );
        if done.is_err() {
            return done;
        }
        proof {
            let ops = ops_view(out@).skip(before.len() as int);
            let got = bind(
                elem@,
                env_view(env@),
                env@.len(),
                vs[k as int],
                heap,
                (k * elem_size) as u64,
                before.len(),
            )->Ok_0;
            assert(ops =~= got);
            let s = head.len() as int;
            if let Ok(more) = bind_items(
                elem@,
                (k + 1) as nat,
                env_view(env@),
                vs,
                elem_size,
                heap,
                out@.len(),
            ) {
                assert(before.skip(s) + (ops + more) =~= ops_view(out@).skip(s) + more);
            }
            assert(ops_view(out@).take(s) =~= head);
        }
        k = k + 1;
    }
    proof {
        let ops = ops_view(out@).skip(head.len() as int);
        assert(ops + Seq::<OpV>::empty() =~= ops);
        assert(ops_view(out@) =~= head + ops);
    }
    Ok(())
}

/// Lists the writes for a `Vec`: its block, its items, and then its words.
fn run_vec<'a>(
    out: &mut Vec<Op>,
    elem: &'a Ty,
    elem_size: u64,
    elem_align: u64,
    seq: &SeqLayout,
    env: &Vec<(Site, &'a Ty)>,
    items: &Vec<Json>,
    block: Block,
    off: u64,
) -> (r: Result<(), BindError>)
    ensures
        appended(
            bind(
                (TyV::Vec { elem: Box::new(elem@), elem_size, elem_align, seq: *seq }),
                env_view(env@),
                0,
                JsonV::Array(crate::json::items_view(items@)),
                block,
                off,
                old(out)@.len(),
            ),
            old(out)@,
            final(out)@,
            r,
        ),
    decreases crate::json::items_view(items@), 0nat, elem@, items@.len() + 1,
{
    let ghost start = ops_view(out@);
    let n: usize = items.len();
    let align: u64 = if elem_align == 0 {
        1
    } else {
        elem_align
    };
    let size: u64 = match (n as u64).checked_mul(elem_size) {
        Some(size) => size,
        None => {
            return Err(BindError::Layout);
        },
    };
    if size != 0 && !allocatable(size, align) {
        return Err(BindError::Layout);
    }
    let at: usize = out.len();
    let (heap, to): (Block, Result<usize, u64>) = if size == 0 {
        (Block::Nowhere(align), Err(align))
    } else {
        emit(out, Op::Alloc { size, align });
        (Block::Heap(at), Ok(at))
    };
    let ghost head = ops_view(out@);
    assert(head =~= start + home_ops(size as int, align));
    let done = run_items(out, elem, elem_size, env, items, heap);
    if done.is_err() {
        return done;
    }
    let ghost ops = bind_items(
        elem@,
        0,
        env_view(env@),
        crate::json::items_view(items@),
        elem_size,
        heap,
        head.len(),
    )->Ok_0;
    assert(heap == home(size as int, align, start.len()) && to == home_ptr(size as int, align, start.len()));
    let done = write_seq(out, seq, block, off, to, n);
    proof {
        if done is Ok {
            let words = seq_words(*seq, block, off, to, n as nat)->Ok_0;
            assert(ops_view(out@) =~= start + (home_ops(size as int, align) + ops + words));
        }
    }
    done
}

/// Lists the writes that lay `val` out as a `ty` at the start of the
/// destination.
pub fn run(ty: &Ty, val: &Json) -> (r: Result<Vec<Op>, BindError>)
    ensures
        match bind(ty@, Seq::empty(), 0, val@, Block::Dest, 0, 0) {
            Ok(ops) => r is Ok && ops_view(r->Ok_0@) == ops,
            Err(e) => r is Err && r->Err_0@ == e,
        },
{
    let env: Vec<(Site, &Ty)> = Vec::new();
    let mut out: Vec<Op> = Vec::new();
    assert(env_view(env@) =~= Seq::empty());
    match run_at(&mut out, ty, &env, 0, val, Block::Dest, 0) {
        Ok(_) => {
            assert(ops_view(out@) =~= bind(ty@, Seq::empty(), 0, val@, Block::Dest, 0, 0)->Ok_0);
            Ok(out)
        },
        Err(e) => Err(e),
    }
}

/// What a value that does not fit is answered: each kind of type names what it needed,
/// and a struct the member that it lacks and its own name.
pub proof fn law_misfit_is_named(ty: TyV, env: Scope, limit: nat, v: JsonV, block: Block, off: u64, base: nat)
    ensures
        ({
            let r = bind(ty, env, limit, v, block, off, base);
            match ty {
                TyV::Char | TyV::Str(_) | TyV::StrRef { .. } => !(v is Str) ==> r == Err::<Seq<OpV>, BindErrorV>(
                    BindErrorV::NotString,
                ),
                TyV::U(_) => crate::json::u128_of(v) is None <==> r == Err::<Seq<OpV>, BindErrorV>(
                    BindErrorV::NotInteger,
                ),
                TyV::I(_) => crate::json::i128_of(v) is None <==> r == Err::<Seq<OpV>, BindErrorV>(
                    BindErrorV::NotInteger,
                ),
                TyV::F32 | TyV::F64 => !(v is Num) <==> r == Err::<Seq<OpV>, BindErrorV>(BindErrorV::NotNumber),
                TyV::Bool | TyV::Unit => r is Ok,
                TyV::Tuple { .. } | TyV::Vec { .. } => !(v is Array) ==> r == Err::<Seq<OpV>, BindErrorV>(
                    BindErrorV::NotArray,
                ),
                TyV::BTreeMap { .. } => r == Err::<Seq<OpV>, BindErrorV>(BindErrorV::Tree),
                TyV::Unknown(what) => r == Err::<Seq<OpV>, BindErrorV>(BindErrorV::Unknown(what)),
                TyV::Struct { name, fields } => fields.len() > 0 && off + fields[0].offset <= u64::MAX
                    && crate::json::get_of(v, fields[0].name) is None && !(fields[0].ty is Opt || fields[0].ty is Rec
                    || fields[0].ty is Ref) ==> r == Err::<Seq<OpV>, BindErrorV>(
                    BindErrorV::MissingKey { key: fields[0].name, name },
                ),
                _ => true,
            }
        }),
{
    let r = bind(ty, env, limit, v, block, off, base);
    if let TyV::Struct { name, fields } = ty {
        assert(r == bind_fields(name, fields, 0, env, v, block, off, base));
        if fields.len() > 0 && off + fields[0].offset <= u64::MAX && crate::json::get_of(v, fields[0].name) is None && !(
        fields[0].ty is Opt || fields[0].ty is Rec || fields[0].ty is Ref) {
            law_lacking_member_is_named(name, fields, 0, 0, env, v, block, off, base);
        }
    }
}

/// A member that a struct lacks is named wherever in the struct it stands, as long as
/// what comes before it fits.
pub proof fn law_lacking_member_is_named(
    name: Seq<char>,
    fields: Seq<FieldV>,
    k: nat,
    j: nat,
    env: Scope,
    v: JsonV,
    block: Block,
    off: u64,
    base: nat,
)
    requires
        k <= j < fields.len(),
        off + fields[j as int].offset <= u64::MAX,
        crate::json::get_of(v, fields[j as int].name) is None,
        !(fields[j as int].ty is Opt || fields[j as int].ty is Rec || fields[j as int].ty is Ref),
        bind_fields(name, fields.take(j as int), k, env, v, block, off, base) is Ok,
    ensures
        bind_fields(name, fields, k, env, v, block, off, base) == Err::<Seq<OpV>, BindErrorV>(
            BindErrorV::MissingKey { key: fields[j as int].name, name },
        ),
    decreases j - k,
{
    if k < j {
        let before = fields.take(j as int);
        assert(before[k as int] == fields[k as int]);
        let f = fields[k as int];
        let at = further(off, f.offset as int)->0;
        let first = match crate::json::get_of(v, f.name) {
            Some(sub) => bind(f.ty, env, env.len(), sub, block, at, base),
            None => match absent(f.ty, env, env.len(), block, at) {
                Some(ops) => ops,
                None => Err(BindErrorV::MissingKey { key: f.name, name }),
            },
        };
        law_lacking_member_is_named(name, fields, k + 1, j, env, v, block, off, base + first->Ok_0.len());
    }
}

/// A string is read as its first character where one is asked for, an empty one as NUL.
pub proof fn law_character_is_the_first(c: char, rest: Seq<char>)
    ensures
        first_char(seq![c] + rest) == c,
        first_char(Seq::empty()) == '\0',
{
}

/// An `Option` without a value is zeroed as a whole before its discriminant is written,
/// where the discriminant lies.
pub proof fn law_empty_option_is_zeroed(
    disc_off: usize,
    disc_size: u8,
    none_discr: u128,
    some_discr: Option<u128>,
    payload_off: usize,
    size: u64,
    inner: Box<TyV>,
    env: Scope,
    limit: nat,
    block: Block,
    off: u64,
    base: nat,
)
    ensures
        ({
            let ty = TyV::Opt { disc_off, disc_size, none_discr, some_discr, payload_off, size, inner };
            let r = bind(ty, env, limit, JsonV::Null, block, off, base);
            if off + disc_off > u64::MAX {
                r == Err::<Seq<OpV>, BindErrorV>(BindErrorV::Offset)
            } else if disc_size > 16 {
                r == Err::<Seq<OpV>, BindErrorV>(BindErrorV::Width)
            } else {
                &&& r is Ok
                &&& r->Ok_0.len() == 2
                &&& r->Ok_0[0] == (OpV::Zero { block, off, len: size })
                &&& r->Ok_0[1] == (OpV::Bytes {
                    block,
                    off: (off + disc_off) as u64,
                    bytes: crate::arith::le(none_discr as nat, disc_size as nat),
                })
            }
        }),
{
}

} // verus!
