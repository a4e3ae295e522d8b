//! Compiling a binder: code that lays a parsed document out as one type, with
//! every offset, size and key built in. It walks the document by calls and
//! writes what [`crate::interp::run`] lists.
use crate::interp::{Block, BindErrorV, OpV};
use crate::ir::{Args, Cc, FuncIr, FuncV, Inst, Point, Region, Shim, State, Target, Term, Val, Value, World};
use crate::json::JsonV;
use crate::plan::{FieldTy, FieldV, SeqLayout, Ty, TyV};
use crate::steps::Line;
use crate::text::bytes_of;
use vstd::prelude::*;
use vstd::string::*;
use vstd::utf8::*;

verus! {

/// Why no code can be compiled for a type.
#[derive(Clone, Copy, PartialEq, Eq, Structural, Debug)]
pub enum CompileError {
    /// The type is not one that code is compiled for.
    Unsupported,
    /// An offset, size or alignment takes more than 63 bits, or the offset of a word
    /// that is stored more than 31.
    Offset,
    /// A back-edge to a type that does not enclose it.
    Unbound,
    /// There is too much in the type for the code to be told apart by numbers.
    Large,
}

/// What code for a type leads to, from one point to another: the writes that
/// bind the document to the type.
pub open spec fn bound(
    ty: TyV,
    s: State,
    dst: Value,
    json: Value,
) -> Option<Result<Seq<OpV>, BindErrorV>> {
    match (crate::ir::get(s.vals, dst), crate::ir::get(s.vals, json)) {
        (Some(Val::Ptr(Region::Out(block), off)), Some(Val::Node(v))) => if 0 <= off <= u64::MAX {
            Some(
                crate::interp::bind(
                    ty,
                    Seq::empty(),
                    0,
                    v,
                    block,
                    off as u64,
                    s.world.ops.len(),
                ),
            )
        } else {
            None
        },
        _ => None,
    }
}

/// Whether a state is one in which the code between two points lays a document
/// out: `q` holds that code, and binding the document to the type succeeds.
pub open spec fn ready(
    m: Seq<FuncV>,
    q: FuncV,
    s: State,
    p: Point,
    to: Point,
    ty: TyV,
    dst: Value,
    json: Value,
) -> bool {
    &&& crate::ir::extends(to.f, q)
    &&& crate::ir::stands(s, p)
    &&& bound(ty, s, dst, json) matches Some(Ok(ops)) && s.world.ops.len() + ops.len() <= usize::MAX
}

/// The world after some writes.
pub open spec fn written(w: World, ops: Seq<OpV>) -> World {
    World { ops: w.ops + ops, scratch: w.scratch }
}

/// Whether the code between two points lays out as a type, at `dst`, the
/// document at `json`.
pub open spec fn lays_out(ty: TyV, p: Point, to: Point, dst: Value, json: Value) -> bool {
    forall|m: Seq<FuncV>, q: FuncV, s: State| #[trigger]
        ready(m, q, s, p, to, ty, dst, json) ==> crate::ir::comes(
            m,
            q,
            s,
            p.f,
            to,
            written(s.world, bound(ty, s, dst, json)->0->Ok_0),
        )
}

/// Whether building got somewhere.
pub open spec fn advanced(p: Point, to: Point) -> bool {
    &&& crate::ir::grows(p, to)
    &&& crate::ir::carried(p, to)
    &&& crate::ir::open_at(to)
    &&& to.cur <= usize::MAX
    &&& crate::ir::size_at(to) <= usize::MAX
    &&& crate::tidy::tidy(p) ==> crate::tidy::tidy(to)
    &&& crate::tidy::left(to) == crate::tidy::left(p)
}

/// The type that code for an integer of `n` bytes is for: those of one, two and
/// four bytes are what they are, all others are stored in eight.
pub open spec fn store_width(n: u8) -> u8 {
    if n == 1 || n == 2 || n == 4 {
        n
    } else {
        8
    }
}

fn width_of(n: u8) -> (r: u8)
    ensures
        r == store_width(n),
{
    if n == 1 || n == 2 || n == 4 {
        n
    } else {
        8
    }
}

/// The bytes of an integer that a call gives, stored in `width` bytes.
pub open spec fn stored(ty: TyV, width: u8, shim: Shim) -> bool {
    match ty {
        TyV::Bool => shim == Shim::AsBool && width == 1,
        TyV::Char => shim == Shim::AsChar && width == 4,
        TyV::U(n) => shim == Shim::AsU64 && width == n && n == store_width(n),
        TyV::I(n) => shim == Shim::AsI64 && width == n && n == store_width(n),
        _ => false,
    }
}

proof fn lemma_pow256_values()
    ensures
        crate::arith::pow256(1) == 0x100,
        crate::arith::pow256(2) == 0x1_0000,
        crate::arith::pow256(4) == 0x1_0000_0000,
        crate::arith::pow256(8) == 0x1_0000_0000_0000_0000,
{
    reveal_with_fuel(crate::arith::pow256, 9);
}

/// What the integers come to that calls give.
#[verifier::spinoff_prover]
#[verifier::rlimit(40)]
proof fn lemma_stored(ty: TyV, width: u8, shim: Shim, s: State, dst: Value, json: Value) -> (x: int)
    requires
        stored(ty, width, shim),
        bound(ty, s, dst, json) matches Some(Ok(_)),
    ensures
        0 <= x < 0x1_0000_0000_0000_0000,
        crate::ir::call_one(shim, crate::ir::get(s.vals, json)->0, s.world) == Some(
            (Val::Int(x), s.world),
        ),
        ({
            let (block, off) = match crate::ir::get(s.vals, dst) {
                Some(Val::Ptr(Region::Out(block), off)) => (block, off),
                _ => arbitrary(),
            };
            bound(ty, s, dst, json)->0->Ok_0 =~= seq![
                crate::interp::put(
                    block,
                    off as u64,
                    crate::arith::le(x as nat, width as nat),
                ),
            ]
        }),
{
    lemma_pow256_values();
    let v = crate::ir::get(s.vals, json)->0->Node_0;
    match ty {
        TyV::Bool => {
            let x: int = if v == JsonV::Bool(true) {
                1
            } else {
                0
            };
            assert(crate::arith::le(x as nat, 1) =~= seq![x as u8]) by {
                reveal_with_fuel(crate::arith::le, 2);
            }
            x
        },
        TyV::Char => crate::interp::first_char(v->Str_0) as int,
        TyV::U(n) => {
            let x = crate::json::u128_of(v)->0;
            crate::arith::lemma_le_rem(x, 8, n as nat);
            crate::ir::m64(x as int)
        },
        TyV::I(n) => {
            let x = crate::json::i128_of(v)->0;
            let u = crate::arith::as_unsigned(x);
            crate::arith::lemma_le_rem(u, 8, n as nat);
            assert(crate::ir::m64(x) == (u % 0x1_0000_0000_0000_0000) as int);
            crate::ir::m64(x)
        },
        _ => 0,
    }
}

proof fn lemma_bind_int(
    m: Seq<FuncV>,
    q: FuncV,
    s: State,
    ty: TyV,
    width: u8,
    shim: Shim,
    p: Point,
    p1: Point,
    p2: Point,
    to: Point,
    dst: Value,
    json: Value,
    b: Value,
)
    requires
        stored(ty, width, shim),
        crate::ir::built(p.f, dst),
        crate::ir::built(p.f, json),
        crate::ir::added(p, p1, seq![Inst::Call(shim, Args::One(json))]),
        p1.f == crate::ir::with_inst(p, Inst::Call(shim, Args::One(json))),
        width == 8 ==> p2 == p1 && b == crate::ir::slot(p, 0),
        width != 8 ==> crate::ir::added(
            p1,
            p2,
            seq![Inst::Ireduce(width, crate::ir::slot(p, 0))],
        ) && p2.f == crate::ir::with_inst(p1, Inst::Ireduce(width, crate::ir::slot(p, 0))) && b
            == crate::ir::slot(p1, 0),
        crate::ir::added(p2, to, seq![Inst::Store { width, val: b, addr: dst, off: 0 }]),
        to.f == crate::ir::with_inst(p2, Inst::Store { width, val: b, addr: dst, off: 0 }),
        ready(m, q, s, p, to, ty, dst, json),
    ensures
        crate::ir::comes(
            m,
            q,
            s,
            p.f,
            to,
            written(s.world, bound(ty, s, dst, json)->0->Ok_0),
        ),
{
    reveal(crate::ir::exec);
    let x = lemma_stored(ty, width, shim, s, dst, json);
    let ops = bound(ty, s, dst, json)->0->Ok_0;
    crate::ir::lemma_extends_trans(p2.f, to.f, q);
    crate::ir::lemma_extends_trans(p1.f, p2.f, q);
    crate::ir::lemma_goes_refl(m, q, s);
    let a = crate::ir::then_inst(
        m,
        q,
        p.f,
        s,
        p,
        Inst::Call(shim, Args::One(json)),
        s,
        Val::Int(x),
        s.world,
    );
    crate::ir::lemma_built(p.f, p1.f, dst);
    let y: int = if width == 8 {
        x
    } else {
        x % (crate::arith::pow256(width as nat) as int)
    };
    let c = if width == 8 {
        a
    } else {
        let i = Inst::Ireduce(width, crate::ir::slot(p, 0));
        crate::ir::then_inst(m, q, p.f, s, p1, i, a, Val::Int(y), s.world)
    };
    lemma_pow256_values();
    crate::arith::lemma_pow256_pos(width as nat);
    crate::arith::lemma_le_rem(x as nat, width as nat, width as nat);
    crate::ir::lemma_built(p1.f, p2.f, dst);
    crate::ir::lemma_extends_trans(p.f, p1.f, p2.f);
    let w = crate::ir::push_op(s.world, ops[0]);
    let i = Inst::Store { width, val: b, addr: dst, off: 0 };
    let t = crate::ir::then_inst(m, q, p.f, s, p2, i, c, Val::Int(0), w);
    assert(t.world.ops =~= s.world.ops + ops);
}

/// Adds the code for an integer, a truth value or a character.
fn bind_int(f: &mut FuncIr, Ghost(ty): Ghost<TyV>, width: u8, shim: Shim, dst: Value, json: Value)
    requires
        stored(ty, width, shim),
        crate::ir::open_at(old(f).point()),
        crate::ir::built(old(f)@, dst),
        crate::ir::built(old(f)@, json),
    ensures
        crate::tidy::adds(old(f).point(), final(f).point(), 5),
        advanced(old(f).point(), final(f).point()),
        lays_out(ty, old(f).point(), final(f).point(), dst, json),
{
    let ghost p = f.point();
    let v: Value = f.emit(Inst::Call(shim, Args::One(json)));
    let ghost p1 = f.point();
    let b: Value = if width == 8 {
        v
    } else {
        f.emit(Inst::Ireduce(width, v))
    };
    let ghost p2 = f.point();
    f.emit(Inst::Store { width, val: b, addr: dst, off: 0 });
    let ghost to = f.point();
    proof {
        crate::ir::lemma_grows_trans(p, p1, p2);
        crate::ir::lemma_grows_trans(p, p2, to);
        assert forall|m: Seq<FuncV>, q: FuncV, s: State| #[trigger]
            ready(m, q, s, p, to, ty, dst, json) implies crate::ir::comes(
            m,
            q,
            s,
            p.f,
            to,
            written(s.world, bound(ty, s, dst, json)->0->Ok_0),
        ) by {
            lemma_bind_int(m, q, s, ty, width, shim, p, p1, p2, to, dst, json, b);
        }
    }
}

proof fn lemma_bind_float(
    m: Seq<FuncV>,
    q: FuncV,
    s: State,
    width: u8,
    p: Point,
    p1: Point,
    p2: Point,
    to: Point,
    dst: Value,
    json: Value,
    b: Value,
)
    requires
        width == 4 || width == 8,
        crate::ir::built(p.f, dst),
        crate::ir::built(p.f, json),
        crate::ir::added(p, p1, seq![Inst::Call(Shim::AsF64, Args::One(json))]),
        p1.f == crate::ir::with_inst(p, Inst::Call(Shim::AsF64, Args::One(json))),
        width == 8 ==> p2 == p1 && b == crate::ir::slot(p, 0),
        width == 4 ==> crate::ir::added(p1, p2, seq![Inst::Fdemote(crate::ir::slot(p, 0))]) && p2.f
            == crate::ir::with_inst(p1, Inst::Fdemote(crate::ir::slot(p, 0))) && b
            == crate::ir::slot(p1, 0),
        crate::ir::added(p2, to, seq![Inst::Store { width, val: b, addr: dst, off: 0 }]),
        to.f == crate::ir::with_inst(p2, Inst::Store { width, val: b, addr: dst, off: 0 }),
        ready(
            m,
            q,
            s,
            p,
            to,
            (if width == 4 {
                TyV::F32
            } else {
                TyV::F64
            }),
            dst,
            json,
        ),
    ensures
        ({
            let ty = if width == 4 {
                TyV::F32
            } else {
                TyV::F64
            };
            crate::ir::comes(
                m,
                q,
                s,
                p.f,
                to,
                written(s.world, bound(ty, s, dst, json)->0->Ok_0),
            )
        }),
{
    reveal(crate::ir::exec);
    let ty = if width == 4 {
        TyV::F32
    } else {
        TyV::F64
    };
    let text = crate::ir::get(s.vals, json)->0->Node_0->Num_0;
    let ops = bound(ty, s, dst, json)->0->Ok_0;
    crate::ir::lemma_extends_trans(p2.f, to.f, q);
    crate::ir::lemma_extends_trans(p1.f, p2.f, q);
    crate::ir::lemma_goes_refl(m, q, s);
    let i = Inst::Call(Shim::AsF64, Args::One(json));
    let a = crate::ir::then_inst(m, q, p.f, s, p, i, s, Val::Float(text, 8), s.world);
    crate::ir::lemma_built(p.f, p1.f, dst);
    let c = if width == 8 {
        a
    } else {
        let i = Inst::Fdemote(crate::ir::slot(p, 0));
        crate::ir::then_inst(m, q, p.f, s, p1, i, a, Val::Float(text, 4), s.world)
    };
    crate::ir::lemma_built(p1.f, p2.f, dst);
    crate::ir::lemma_extends_trans(p.f, p1.f, p2.f);
    let w = crate::ir::push_op(s.world, ops[0]);
    let i = Inst::Store { width, val: b, addr: dst, off: 0 };
    let t = crate::ir::then_inst(m, q, p.f, s, p2, i, c, Val::Int(0), w);
    assert(t.world.ops =~= s.world.ops + ops);
}

/// Adds the code for a floating-point number.
fn bind_float(f: &mut FuncIr, width: u8, dst: Value, json: Value)
    requires
        width == 4 || width == 8,
        crate::ir::open_at(old(f).point()),
        crate::ir::built(old(f)@, dst),
        crate::ir::built(old(f)@, json),
    ensures
        crate::tidy::adds(old(f).point(), final(f).point(), 5),
        advanced(old(f).point(), final(f).point()),
        lays_out(
            (if width == 4 {
                TyV::F32
            } else {
                TyV::F64
            }),
            old(f).point(),
            final(f).point(),
            dst,
            json,
        ),
{
    let ghost ty = if width == 4 {
        TyV::F32
    } else {
        TyV::F64
    };
    let ghost p = f.point();
    let v: Value = f.emit(Inst::Call(Shim::AsF64, Args::One(json)));
    let ghost p1 = f.point();
    let b: Value = if width == 8 {
        v
    } else {
        f.emit(Inst::Fdemote(v))
    };
    let ghost p2 = f.point();
    f.emit(Inst::Store { width, val: b, addr: dst, off: 0 });
    let ghost to = f.point();
    proof {
        crate::ir::lemma_grows_trans(p, p1, p2);
        crate::ir::lemma_grows_trans(p, p2, to);
        assert forall|m: Seq<FuncV>, q: FuncV, s: State| #[trigger]
            ready(m, q, s, p, to, ty, dst, json) implies crate::ir::comes(
            m,
            q,
            s,
            p.f,
            to,
            written(s.world, bound(ty, s, dst, json)->0->Ok_0),
        ) by {
            lemma_bind_float(m, q, s, width, p, p1, p2, to, dst, json, b);
        }
    }
}

/// Whether the code between two points stores a value.
pub open spec fn stores(p: Point, to: Point, base: Value, off: usize, v: Value) -> bool {
    let i = Inst::Store { width: 8, val: v, addr: base, off: off as u64 };
    crate::ir::added(p, to, seq![i]) && to.f == crate::ir::with_inst(p, i)
}

/// Adds a store of eight bytes at an offset from a pointer.
pub fn store_at(f: &mut FuncIr, base: Value, off: usize, v: Value)
    requires
        crate::ir::open_at(old(f).point()),
        crate::ir::built(old(f)@, base),
        crate::ir::built(old(f)@, v),
        crate::lower::sized(old(f)@, v, 8),
        off <= i32::MAX,
    ensures
        crate::tidy::adds(old(f).point(), final(f).point(), 1),
        stores(old(f).point(), final(f).point(), base, off, v),
        advanced(old(f).point(), final(f).point()),
{
    f.emit(Inst::Store { width: 8, val: v, addr: base, off: off as u64 });
}

/// What a value is as a data pointer: an allocated block, or an address that
/// nothing was allocated at.
pub open spec fn as_pointer(v: Val) -> Option<Result<usize, u64>> {
    match v {
        Val::Ptr(Region::Out(Block::Heap(k)), o) => if o == 0 {
            Some(Ok(k))
        } else {
            None
        },
        Val::Ptr(Region::Out(Block::Nowhere(a)), o) => if o == 0 {
            Some(Err(a))
        } else {
            None
        },
        Val::Int(x) => if 0 <= x < 0x1_0000_0000_0000_0000 {
            Some(Err(x as u64))
        } else {
            None
        },
        _ => None,
    }
}

/// Storing a word writes it.
pub proof fn then_store(
    m: Seq<FuncV>,
    q: FuncV,
    p0: FuncV,
    s0: State,
    p: Point,
    to: Point,
    base: Value,
    off: usize,
    v: Value,
    a: State,
    block: Block,
    o: u64,
) -> (b: State)
    requires
        stores(p, to, base, off, v),
        crate::ir::extends(to.f, q),
        crate::ir::extends(p0, p.f),
        crate::ir::goes(m, q, s0, a),
        crate::ir::keeps(p0, s0, a),
        crate::ir::stands(a, p),
        crate::ir::get(a.vals, base) == Some(Val::Ptr(Region::Out(block), o as int)),
        o + off <= u64::MAX,
        crate::ir::get(a.vals, v) is Some,
        as_pointer(crate::ir::get(a.vals, v)->0) is Some,
    ensures
        crate::ir::goes(m, q, s0, b),
        crate::ir::keeps(p0, s0, b),
        crate::ir::keeps(p.f, a, b),
        crate::ir::stands(b, to),
        b.world == crate::ir::push_op(
            a.world,
            crate::interp::pointer(
                block,
                (o + off) as u64,
                as_pointer(crate::ir::get(a.vals, v)->0)->0,
            ),
        ),
{
    reveal(crate::ir::exec);
    let i = Inst::Store { width: 8, val: v, addr: base, off: off as u64 };
    let op = crate::interp::pointer(
        block,
        (o + off) as u64,
        as_pointer(crate::ir::get(a.vals, v)->0)->0,
    );
    let w = crate::ir::push_op(a.world, op);
    crate::ir::then_inst(m, q, p0, s0, p, i, a, Val::Int(0), w)
}

/// The words of a `Vec`-like value that code at a point is to write.
pub open spec fn words_at(seq: SeqLayout, s: State, dst: Value, ptr: Value, n: Value) -> Option<
    Result<Seq<OpV>, BindErrorV>,
> {
    match (crate::ir::get(s.vals, dst), crate::ir::get(s.vals, ptr), crate::ir::get(s.vals, n)) {
        (Some(Val::Ptr(Region::Out(block), o)), Some(pv), Some(Val::Int(x))) => if 0 <= o
            <= u64::MAX && as_pointer(pv) is Some && 0 <= x < 0x1_0000_0000_0000_0000 {
            Some(
                crate::interp::seq_words(seq, block, o as u64, as_pointer(pv)->0, x as nat),
            )
        } else {
            None
        },
        _ => None,
    }
}

pub open spec fn ready_words(
    m: Seq<FuncV>,
    q: FuncV,
    s: State,
    p: Point,
    to: Point,
    seq: SeqLayout,
    dst: Value,
    ptr: Value,
    n: Value,
) -> bool {
    &&& crate::ir::extends(to.f, q)
    &&& crate::ir::stands(s, p)
    &&& words_at(seq, s, dst, ptr, n) matches Some(Ok(_))
}

/// Whether the code between two points writes the words of a `Vec`-like value.
pub open spec fn writes_words(
    seq: SeqLayout,
    p: Point,
    to: Point,
    dst: Value,
    ptr: Value,
    n: Value,
) -> bool {
    forall|m: Seq<FuncV>, q: FuncV, s: State| #[trigger]
        ready_words(m, q, s, p, to, seq, dst, ptr, n) ==> crate::ir::comes(
            m,
            q,
            s,
            p.f,
            to,
            written(s.world, words_at(seq, s, dst, ptr, n)->0->Ok_0),
        )
}

proof fn lemma_store_seq(
    m: Seq<FuncV>,
    q: FuncV,
    s: State,
    seq: SeqLayout,
    p: Point,
    p1: Point,
    p2: Point,
    to: Point,
    dst: Value,
    ptr: Value,
    n: Value,
)
    requires
        crate::ir::built(p.f, dst),
        crate::ir::built(p.f, ptr),
        crate::ir::built(p.f, n),
        stores(p, p1, dst, seq.ptr_off, ptr),
        stores(p1, p2, dst, seq.cap_off, n),
        stores(p2, to, dst, seq.len_off, n),
        ready_words(m, q, s, p, to, seq, dst, ptr, n),
    ensures
        crate::ir::comes(
            m,
            q,
            s,
            p.f,
            to,
            written(s.world, words_at(seq, s, dst, ptr, n)->0->Ok_0),
        ),
{
    let (block, o) = match crate::ir::get(s.vals, dst) {
        Some(Val::Ptr(Region::Out(block), o)) => (block, o as u64),
        _ => arbitrary(),
    };
    crate::ir::lemma_extends_trans(p2.f, to.f, q);
    crate::ir::lemma_extends_trans(p1.f, p2.f, q);
    crate::ir::lemma_extends_trans(p.f, p1.f, p2.f);
    crate::ir::lemma_goes_refl(m, q, s);
    crate::ir::lemma_built(p.f, p1.f, dst);
    crate::ir::lemma_built(p.f, p1.f, n);
    crate::ir::lemma_built(p.f, p2.f, dst);
    crate::ir::lemma_built(p.f, p2.f, n);
    let a = then_store(m, q, p.f, s, p, p1, dst, seq.ptr_off, ptr, s, block, o);
    let b = then_store(m, q, p.f, s, p1, p2, dst, seq.cap_off, n, a, block, o);
    let c = then_store(m, q, p.f, s, p2, to, dst, seq.len_off, n, b, block, o);
    assert(c.world.ops =~= s.world.ops + words_at(seq, s, dst, ptr, n)->0->Ok_0);
}

/// Adds the code for the words of a `Vec`-like value.
pub fn store_seq(f: &mut FuncIr, seq: &SeqLayout, dst: Value, ptr: Value, n: Value)
    requires
        crate::ir::open_at(old(f).point()),
        crate::ir::built(old(f)@, dst),
        crate::ir::built(old(f)@, ptr),
        crate::ir::built(old(f)@, n),
        crate::lower::sized(old(f)@, ptr, 8),
        crate::lower::sized(old(f)@, n, 8),
        near(*seq),
    ensures
        crate::tidy::adds(old(f).point(), final(f).point(), 3),
        advanced(old(f).point(), final(f).point()),
        writes_words(*seq, old(f).point(), final(f).point(), dst, ptr, n),
{
    let ghost p = f.point();
    store_at(f, dst, seq.ptr_off, ptr);
    let ghost p1 = f.point();
    store_at(f, dst, seq.cap_off, n);
    let ghost p2 = f.point();
    store_at(f, dst, seq.len_off, n);
    let ghost to = f.point();
    proof {
        crate::ir::lemma_grows_trans(p, p1, p2);
        crate::ir::lemma_grows_trans(p, p2, to);
        assert forall|m: Seq<FuncV>, q: FuncV, s: State| #[trigger]
            ready_words(m, q, s, p, to, *seq, dst, ptr, n) implies crate::ir::comes(
            m,
            q,
            s,
            p.f,
            to,
            written(s.world, words_at(*seq, s, dst, ptr, n)->0->Ok_0),
        ) by {
            lemma_store_seq(m, q, s, *seq, p, p1, p2, to, dst, ptr, n);
        }
    }
}

/// What a copy of bytes comes to, as a list of writes and a data pointer.
pub proof fn lemma_dup(b: Seq<u8>, w: World)
    requires
        b.len() <= u64::MAX,
        w.ops.len() <= usize::MAX,
    ensures
        ({
            let (ops, to) = crate::interp::copy_ops(b, w.ops.len());
            crate::ir::dup_call(b, 0, b.len() as int, w) matches Some((v, w2)) && as_pointer(v)
                == Some(to) && w2 == written(w, ops)
        }),
{
    let (ops, to) = crate::interp::copy_ops(b, w.ops.len());
    let (v, w2) = crate::ir::dup_call(b, 0, b.len() as int, w)->0;
    assert(b.subrange(0, b.len() as int) =~= b);
    assert(w2.ops =~= w.ops + ops);
}

/// Whether the code between two points copies the text of a document's string:
/// what points to the copy, and how long it is.
pub open spec fn copies_text(p: Point, to: Point, json: Value, ptr: Value, n: Value) -> bool {
    forall|m: Seq<FuncV>, q: FuncV, s: State| #[trigger]
        ready_text(m, q, s, p, to, json) ==> copied_text(m, q, s, p, to, json, ptr, n)
}

pub open spec fn ready_text(
    m: Seq<FuncV>,
    q: FuncV,
    s: State,
    p: Point,
    to: Point,
    json: Value,
) -> bool {
    &&& crate::ir::extends(to.f, q)
    &&& crate::ir::stands(s, p)
    &&& s.world.ops.len() <= usize::MAX
    &&& crate::ir::get(s.vals, json) matches Some(Val::Node(JsonV::Str(text))) && encode_utf8(
        text,
    ).len() <= u64::MAX
}

pub open spec fn copied_text(
    m: Seq<FuncV>,
    q: FuncV,
    s: State,
    p: Point,
    to: Point,
    json: Value,
    ptr: Value,
    n: Value,
) -> bool {
    let bytes = encode_utf8(crate::ir::get(s.vals, json)->0->Node_0->Str_0);
    let (ops, at) = crate::interp::copy_ops(bytes, s.world.ops.len());
    exists|t: State|
        {
            &&& #[trigger] crate::ir::goes(m, q, s, t)
            &&& crate::ir::stands(t, to)
            &&& crate::ir::keeps(p.f, s, t)
            &&& crate::ir::get(t.vals, ptr) is Some
            &&& as_pointer(crate::ir::get(t.vals, ptr)->0) == Some(at)
            &&& crate::ir::get(t.vals, n) == Some(Val::Int(bytes.len() as int))
            &&& t.world == written(s.world, ops)
        }
}

proof fn lemma_copy_text(
    m: Seq<FuncV>,
    q: FuncV,
    s: State,
    p: Point,
    p1: Point,
    p2: Point,
    to: Point,
    json: Value,
    a: Value,
    n: Value,
    d: Value,
)
    requires
        crate::ir::built(p.f, json),
        crate::ir::added(p, p1, seq![Inst::Call(Shim::StrPtr, Args::One(json))]),
        p1.f == crate::ir::with_inst(p, Inst::Call(Shim::StrPtr, Args::One(json))),
        crate::ir::added(p1, p2, seq![Inst::Call(Shim::StrLen, Args::One(json))]),
        p2.f == crate::ir::with_inst(p1, Inst::Call(Shim::StrLen, Args::One(json))),
        crate::ir::added(p2, to, seq![Inst::Call(Shim::Dup, Args::Two(a, n))]),
        to.f == crate::ir::with_inst(p2, Inst::Call(Shim::Dup, Args::Two(a, n))),
        a == crate::ir::slot(p, 0),
        n == crate::ir::slot(p1, 0),
        d == crate::ir::slot(p2, 0),
        ready_text(m, q, s, p, to, json),
    ensures
        copied_text(m, q, s, p, to, json, d, n),
{
    reveal(crate::ir::exec);
    let text = crate::ir::get(s.vals, json)->0->Node_0->Str_0;
    let bytes = encode_utf8(text);
    crate::ir::lemma_extends_trans(p2.f, to.f, q);
    crate::ir::lemma_extends_trans(p1.f, p2.f, q);
    crate::ir::lemma_extends_trans(p.f, p1.f, p2.f);
    crate::ir::lemma_goes_refl(m, q, s);
    let i0 = Inst::Call(Shim::StrPtr, Args::One(json));
    let data = Val::Ptr(Region::Data(bytes), 0);
    let x = crate::ir::then_inst(m, q, p.f, s, p, i0, s, data, s.world);
    let i1 = Inst::Call(Shim::StrLen, Args::One(json));
    let len = Val::Int(bytes.len() as int);
    crate::ir::lemma_built(p.f, p1.f, json);
    assert(crate::ir::get(x.vals, json) == crate::ir::get(s.vals, json));
    let y = crate::ir::then_inst(m, q, p.f, s, p1, i1, x, len, s.world);
    let i2 = Inst::Call(Shim::Dup, Args::Two(a, n));
    assert(crate::ir::built(p1.f, a));
    assert(crate::ir::get(y.vals, a) == crate::ir::get(x.vals, a));
    lemma_dup(bytes, s.world);
    let (v, w) = crate::ir::dup_call(bytes, 0, bytes.len() as int, s.world)->0;
    let z = crate::ir::then_inst(m, q, p.f, s, p2, i2, y, v, w);
    assert(crate::ir::built(p2.f, n));
    assert(crate::ir::get(z.vals, n) == crate::ir::get(y.vals, n));
}

/// Adds the code that copies the text of a string.
fn copy_text(f: &mut FuncIr, json: Value) -> (r: (Value, Value))
    requires
        crate::ir::open_at(old(f).point()),
        crate::ir::built(old(f)@, json),
    ensures
        crate::lower::sized(final(f)@, r.0, 8),
        crate::lower::sized(final(f)@, r.1, 8),
        crate::tidy::adds(old(f).point(), final(f).point(), 5),
        advanced(old(f).point(), final(f).point()),
        crate::ir::built(final(f)@, r.0),
        crate::ir::built(final(f)@, r.1),
        copies_text(old(f).point(), final(f).point(), json, r.0, r.1),
{
    let ghost p = f.point();
    let a: Value = f.emit(Inst::Call(Shim::StrPtr, Args::One(json)));
    let ghost p1 = f.point();
    let n: Value = f.emit(Inst::Call(Shim::StrLen, Args::One(json)));
    let ghost p2 = f.point();
    let d: Value = f.emit(Inst::Call(Shim::Dup, Args::Two(a, n)));
    let ghost to = f.point();
    proof {
        crate::ir::lemma_grows_trans(p, p1, p2);
        crate::ir::lemma_grows_trans(p, p2, to);
        crate::ir::lemma_built(p2.f, to.f, n);
        assert forall|m: Seq<FuncV>, q: FuncV, s: State| #[trigger]
            ready_text(m, q, s, p, to, json) implies copied_text(
            m,
            q,
            s,
            p,
            to,
            json,
            d,
            n,
        ) by {
            lemma_copy_text(m, q, s, p, p1, p2, to, json, a, n, d);
        }
    }
    (d, n)
}

proof fn lemma_emit_str(
    m: Seq<FuncV>,
    q: FuncV,
    s: State,
    seq: SeqLayout,
    p: Point,
    p1: Point,
    to: Point,
    dst: Value,
    json: Value,
    d: Value,
    n: Value,
)
    requires
        crate::ir::built(p.f, dst),
        crate::ir::built(p1.f, d),
        crate::ir::built(p1.f, n),
        advanced(p, p1),
        copies_text(p, p1, json, d, n),
        advanced(p1, to),
        writes_words(seq, p1, to, dst, d, n),
        ready(m, q, s, p, to, TyV::Str(seq), dst, json),
    ensures
        crate::ir::comes(
            m,
            q,
            s,
            p.f,
            to,
            written(s.world, bound(TyV::Str(seq), s, dst, json)->0->Ok_0),
        ),
{
    let text = crate::ir::get(s.vals, json)->0->Node_0->Str_0;
    let bytes = encode_utf8(text);
    let (ops, at) = crate::interp::copy_ops(bytes, s.world.ops.len());
    crate::ir::lemma_extends_trans(p1.f, to.f, q);
    assert(ready_text(m, q, s, p, p1, json));
    assert(copied_text(m, q, s, p, p1, json, d, n));
    let t = choose|t: State|
        {
            &&& #[trigger] crate::ir::goes(m, q, s, t)
            &&& crate::ir::stands(t, p1)
            &&& crate::ir::keeps(p.f, s, t)
            &&& crate::ir::get(t.vals, d) is Some
            &&& as_pointer(crate::ir::get(t.vals, d)->0) == Some(at)
            &&& crate::ir::get(t.vals, n) == Some(Val::Int(bytes.len() as int))
            &&& t.world == written(s.world, ops)
        };
    assert(crate::ir::get(t.vals, dst) == crate::ir::get(s.vals, dst));
    assert(ready_words(m, q, t, p1, to, seq, dst, d, n));
    let words = words_at(seq, t, dst, d, n)->0->Ok_0;
    let u = crate::ir::come(m, q, t, p1.f, to, written(t.world, words));
    crate::ir::lemma_goes_trans(m, q, s, t, u);
    crate::ir::lemma_keeps_trans(p.f, p1.f, s, t, u);
    assert(u.world.ops =~= s.world.ops + bound(TyV::Str(seq), s, dst, json)->0->Ok_0);
}

/// Adds the code for a `String`.
fn emit_str(f: &mut FuncIr, seq: &SeqLayout, dst: Value, json: Value)
    requires
        near(*seq),
        crate::ir::open_at(old(f).point()),
        crate::ir::built(old(f)@, dst),
        crate::ir::built(old(f)@, json),
    ensures
        crate::tidy::adds(old(f).point(), final(f).point(), 20),
        advanced(old(f).point(), final(f).point()),
        lays_out(TyV::Str(*seq), old(f).point(), final(f).point(), dst, json),
{
    let ghost p = f.point();
    let (d, n) = copy_text(f, json);
    let ghost p1 = f.point();
    proof {
        crate::ir::lemma_built(p.f, p1.f, dst);
    }
    store_seq(f, seq, dst, d, n);
    let ghost to = f.point();
    proof {
        crate::ir::lemma_grows_trans(p, p1, to);
        assert forall|m: Seq<FuncV>, q: FuncV, s: State| #[trigger]
            ready(m, q, s, p, to, TyV::Str(*seq), dst, json) implies crate::ir::comes(
            m,
            q,
            s,
            p.f,
            to,
            written(s.world, bound(TyV::Str(*seq), s, dst, json)->0->Ok_0),
        ) by {
            lemma_emit_str(m, q, s, *seq, p, p1, to, dst, json, d, n);
        }
    }
}

proof fn lemma_emit_str_ref(
    m: Seq<FuncV>,
    q: FuncV,
    s: State,
    ptr_off: usize,
    len_off: usize,
    p: Point,
    p1: Point,
    p2: Point,
    to: Point,
    dst: Value,
    json: Value,
    d: Value,
    n: Value,
)
    requires
        crate::ir::built(p.f, dst),
        crate::ir::built(p1.f, d),
        crate::ir::built(p1.f, n),
        advanced(p, p1),
        copies_text(p, p1, json, d, n),
        stores(p1, p2, dst, ptr_off, d),
        stores(p2, to, dst, len_off, n),
        ready(m, q, s, p, to, TyV::StrRef { ptr_off, len_off }, dst, json),
    ensures
        crate::ir::comes(
            m,
            q,
            s,
            p.f,
            to,
            written(s.world, bound(TyV::StrRef { ptr_off, len_off }, s, dst, json)->0->Ok_0),
        ),
{
    let text = crate::ir::get(s.vals, json)->0->Node_0->Str_0;
    let bytes = encode_utf8(text);
    let (ops, at) = crate::interp::copy_ops(bytes, s.world.ops.len());
    let (block, o) = match crate::ir::get(s.vals, dst) {
        Some(Val::Ptr(Region::Out(block), o)) => (block, o as u64),
        _ => arbitrary(),
    };
    crate::ir::lemma_extends_trans(p2.f, to.f, q);
    crate::ir::lemma_extends_trans(p1.f, p2.f, q);
    assert(ready_text(m, q, s, p, p1, json));
    assert(copied_text(m, q, s, p, p1, json, d, n));
    let t = choose|t: State|
        {
            &&& #[trigger] crate::ir::goes(m, q, s, t)
            &&& crate::ir::stands(t, p1)
            &&& crate::ir::keeps(p.f, s, t)
            &&& crate::ir::get(t.vals, d) is Some
            &&& as_pointer(crate::ir::get(t.vals, d)->0) == Some(at)
            &&& crate::ir::get(t.vals, n) == Some(Val::Int(bytes.len() as int))
            &&& t.world == written(s.world, ops)
        };
    assert(crate::ir::get(t.vals, dst) == crate::ir::get(s.vals, dst));
    crate::ir::lemma_built(p.f, p1.f, dst);
    let a = then_store(m, q, p.f, s, p1, p2, dst, ptr_off, d, t, block, o);
    assert(crate::ir::get(a.vals, dst) == crate::ir::get(t.vals, dst));
    assert(crate::ir::get(a.vals, n) == crate::ir::get(t.vals, n));
    crate::ir::lemma_extends_trans(p.f, p1.f, p2.f);
    let b = then_store(m, q, p.f, s, p2, to, dst, len_off, n, a, block, o);
    assert(b.world.ops =~= s.world.ops + bound(
        TyV::StrRef { ptr_off, len_off },
        s,
        dst,
        json,
    )->0->Ok_0);
}

/// Adds the code for a `&str`.
fn emit_str_ref(f: &mut FuncIr, ptr_off: usize, len_off: usize, dst: Value, json: Value)
    requires
        ptr_off <= i32::MAX,
        len_off <= i32::MAX,
        crate::ir::open_at(old(f).point()),
        crate::ir::built(old(f)@, dst),
        crate::ir::built(old(f)@, json),
    ensures
        crate::tidy::adds(old(f).point(), final(f).point(), 20),
        advanced(old(f).point(), final(f).point()),
        lays_out(
            (TyV::StrRef { ptr_off, len_off }),
            old(f).point(),
            final(f).point(),
            dst,
            json,
        ),
{
    let ghost p = f.point();
    let (d, n) = copy_text(f, json);
    let ghost p1 = f.point();
    store_at(f, dst, ptr_off, d);
    let ghost p2 = f.point();
    store_at(f, dst, len_off, n);
    let ghost to = f.point();
    proof {
        crate::ir::lemma_grows_trans(p, p1, p2);
        crate::ir::lemma_grows_trans(p, p2, to);
        let ty = TyV::StrRef { ptr_off, len_off };
        assert forall|m: Seq<FuncV>, q: FuncV, s: State| #[trigger]
            ready(m, q, s, p, to, ty, dst, json) implies crate::ir::comes(
            m,
            q,
            s,
            p.f,
            to,
            written(s.world, bound(ty, s, dst, json)->0->Ok_0),
        ) by {
            lemma_emit_str_ref(m, q, s, ptr_off, len_off, p, p1, p2, to, dst, json, d, n);
        }
    }
}

/// The type that compiled code lays out: integers of other than one, two, four
/// or eight bytes are stored in eight.
pub open spec fn narrow(ty: TyV) -> TyV
    decreases ty,
{
    match ty {
        TyV::U(n) => TyV::U(store_width(n)),
        TyV::I(n) => TyV::I(store_width(n)),
        TyV::Struct { name, fields } => TyV::Struct { name, fields: narrow_fields(fields) },
        TyV::Vec { elem, elem_size, elem_align, seq } => TyV::Vec {
            elem: Box::new(narrow(*elem)),
            elem_size,
            elem_align,
            seq,
        },
        _ => ty,
    }
}

pub open spec fn narrow_fields(fields: Seq<FieldV>) -> Seq<FieldV>
    decreases fields,
{
    Seq::new(
        fields.len(),
        |k: int|
            if 0 <= k < fields.len() {
                FieldV {
                    name: fields[k].name,
                    offset: fields[k].offset,
                    ty: narrow(fields[k].ty),
                }
            } else {
                arbitrary()
            },
    )
}

/// Whether the words of a `Vec`-like value are near enough to its start.
pub open spec fn near(seq: SeqLayout) -> bool {
    seq.ptr_off <= i32::MAX && seq.cap_off <= i32::MAX && seq.len_off <= i32::MAX
}

/// How many steps code takes for each unit of a type's size, at most.
pub const STEP: u64 = 1000;

/// Why no binder can be compiled for a type, where none can.
pub open spec fn refused(ty: TyV) -> Option<CompileError>
    decreases ty, 0nat,
{
    match ty {
        TyV::Bool | TyV::Char | TyV::U(_) | TyV::I(_) | TyV::F32 | TyV::F64 => None,
        TyV::Str(seq) => if near(seq) {
            None
        } else {
            Some(CompileError::Offset)
        },
        TyV::StrRef { ptr_off, len_off } => if ptr_off <= i32::MAX && len_off <= i32::MAX {
            None
        } else {
            Some(CompileError::Offset)
        },
        TyV::Struct { name, fields } => refused_fields(fields, fields.len()),
        TyV::Vec { elem, elem_size, elem_align, seq } => if elem_size > i64::MAX || elem_align > i64::MAX || !near(seq) {
            Some(CompileError::Offset)
        } else {
            refused(*elem)
        },
        _ => Some(CompileError::Unsupported),
    }
}

/// Why one of the first `n` fields cannot be laid out: the first of them.
pub open spec fn refused_fields(fields: Seq<FieldV>, n: nat) -> Option<CompileError>
    decreases fields, n,
{
    if n == 0 || n > fields.len() {
        None
    } else {
        match refused_fields(fields, (n - 1) as nat) {
            Some(e) => Some(e),
            None => {
                let f = fields[n - 1];
                if f.offset > i64::MAX || encode_utf8(f.name).len() > i64::MAX {
                    Some(CompileError::Offset)
                } else {
                    refused(f.ty)
                }
            },
        }
    }
}

proof fn lemma_refused_fields(fields: Seq<FieldV>, n: nat, k: int)
    requires
        refused_fields(fields, n) is None,
        0 <= k < n <= fields.len(),
    ensures
        fields[k].offset <= i64::MAX,
        encode_utf8(fields[k].name).len() <= i64::MAX,
        refused(fields[k].ty) is None,
    decreases n,
{
    if k < n - 1 {
        lemma_refused_fields(fields, (n - 1) as nat, k);
    }
}

pub fn is_near(seq: &SeqLayout) -> (r: bool)
    ensures
        r == near(*seq),
{
    let max: usize = 0x7fff_ffff;
    seq.ptr_off <= max && seq.cap_off <= max && seq.len_off <= max
}

/// Whether an offset fits the code.
pub fn offset_fits(off: usize) -> (r: bool)
    ensures
        r == (off <= i64::MAX),
{
    off as u64 <= 0x7fff_ffff_ffff_ffff
}

/// Why no binder can be compiled for a type, where none can.
pub fn check(ty: &Ty) -> (r: Option<CompileError>)
    ensures
        r == refused(ty@),
    decreases ty,
{
    match ty {
        Ty::Bool | Ty::Char | Ty::U(_) | Ty::I(_) | Ty::F32 | Ty::F64 => None,
        Ty::Str(seq) => if is_near(seq) {
            None
        } else {
            Some(CompileError::Offset)
        },
        Ty::StrRef { ptr_off, len_off } => if *ptr_off <= 0x7fff_ffff && *len_off <= 0x7fff_ffff {
            None
        } else {
            Some(CompileError::Offset)
        },
        Ty::Struct { name, fields } => check_fields(fields),
        Ty::Vec { elem, elem_size, elem_align, seq } => if *elem_size > 0x7fff_ffff_ffff_ffff || *elem_align > 0x7fff_ffff_ffff_ffff
            || !is_near(seq) {
            Some(CompileError::Offset)
        } else {
            check(elem)
        },
        _ => Some(CompileError::Unsupported),
    }
}

fn check_fields(fields: &Vec<FieldTy>) -> (r: Option<CompileError>)
    ensures
        r == refused_fields(crate::plan::fields_view(fields@), fields@.len()),
    decreases fields,
{
    let mut r: Option<CompileError> = None;
    let mut k: usize = 0;
    while k < fields.len()
        invariant
            k <= fields@.len(),
            r == refused_fields(crate::plan::fields_view(fields@), k as nat),
        decreases fields@.len() - k,
    {
        assert(decreases_to!(*fields => fields@));
        assert(decreases_to!(fields@ => fields@[k as int]));
        assert(decreases_to!(fields@[k as int] => fields@[k as int].ty));
        assert(crate::plan::fields_view(fields@)[k as int] == fields@[k as int]@);
        if r.is_none() {
            let f = &fields[k];
            let name: Vec<u8> = bytes_of(f.name.as_str());
            r = if !offset_fits(f.offset) || !offset_fits(name.len()) {
                Some(CompileError::Offset)
            } else {
                check(&f.ty)
            };
        }
        k = k + 1;
    }
    r
}

/// What code for a struct's fields from the `k`th on leads to.
pub open spec fn bound_fields(
    name: Seq<char>,
    fields: Seq<FieldV>,
    k: nat,
    s: State,
    dst: Value,
    json: Value,
) -> Option<Result<Seq<OpV>, BindErrorV>> {
    match (crate::ir::get(s.vals, dst), crate::ir::get(s.vals, json)) {
        (Some(Val::Ptr(Region::Out(block), off)), Some(Val::Node(v))) => if 0 <= off <= u64::MAX {
            Some(
                crate::interp::bind_fields(
                    name,
                    fields,
                    k,
                    Seq::empty(),
                    v,
                    block,
                    off as u64,
                    s.world.ops.len(),
                ),
            )
        } else {
            None
        },
        _ => None,
    }
}

pub open spec fn ready_fields(
    m: Seq<FuncV>,
    q: FuncV,
    s: State,
    p: Point,
    to: Point,
    name: Seq<char>,
    fields: Seq<FieldV>,
    k: nat,
    dst: Value,
    json: Value,
) -> bool {
    &&& crate::ir::extends(to.f, q)
    &&& crate::ir::stands(s, p)
    &&& bound_fields(name, fields, k, s, dst, json) matches Some(Ok(ops)) && s.world.ops.len()
        + ops.len() <= usize::MAX
}

/// Whether the code between two points lays out a struct's fields from the `k`th
/// on.
pub open spec fn lays_out_fields(
    name: Seq<char>,
    fields: Seq<FieldV>,
    k: nat,
    p: Point,
    to: Point,
    dst: Value,
    json: Value,
) -> bool {
    forall|m: Seq<FuncV>, q: FuncV, s: State| #[trigger]
        ready_fields(m, q, s, p, to, name, fields, k, dst, json) ==> crate::ir::comes(
            m,
            q,
            s,
            p.f,
            to,
            written(s.world, bound_fields(name, fields, k, s, dst, json)->0->Ok_0),
        )
}

/// The code that gets at a field's place, and at the member for it.
pub open spec fn field_line(p: Point, dst: Value, json: Value, off: i64, key: usize, len: i64) -> Seq<
    Inst,
> {
    Seq::empty()
        .push(Inst::Iconst(off))
        .push(Inst::Iadd(dst, crate::ir::slot(p, 0)))
        .push(Inst::Key(key))
        .push(Inst::Iconst(len))
        .push(
            Inst::Call(Shim::ObjGet, Args::Three(json, crate::ir::slot(p, 2), crate::ir::slot(p, 3))),
        )
}

/// Carries out the code that gets at a field's place and its member.
proof fn lemma_field_line(
    m: Seq<FuncV>,
    q: FuncV,
    s: State,
    p: Point,
    dst: Value,
    json: Value,
    f: FieldV,
    key: usize,
    line: Seq<Inst>,
    block: Block,
    o: int,
    v: JsonV,
) -> (e: State)
    requires
        f.offset <= i64::MAX,
        encode_utf8(f.name).len() <= i64::MAX,
        line == field_line(
            p,
            dst,
            json,
            f.offset as i64,
            key,
            encode_utf8(f.name).len() as i64,
        ),
        crate::ir::laid(q, p, line),
        crate::ir::keyed(q, key, f.name),
        crate::ir::open_at(p),
        crate::ir::stands(s, p),
        crate::ir::built(p.f, dst),
        crate::ir::built(p.f, json),
        crate::ir::get(s.vals, dst) == Some(Val::Ptr(Region::Out(block), o)),
        crate::ir::get(s.vals, json) == Some(Val::Node(v)),
        crate::json::get_of(v, f.name) is Some,
    ensures
        crate::ir::goes(m, q, s, e),
        crate::ir::keeps(p.f, s, e),
        e.block == p.cur,
        e.at == crate::ir::size_at(p) + 5,
        crate::ir::get(e.vals, crate::ir::slot(p, 1)) == Some(
            Val::Ptr(Region::Out(block), o + f.offset),
        ),
        crate::ir::get(e.vals, crate::ir::slot(p, 4)) == Some(
            Val::Node(crate::json::get_of(v, f.name)->0),
        ),
        e.world == s.world,
{
    let g = Line { m, q, p0: p.f, s0: s, o: p, l: line };
    g.begin(s);
    let len = encode_utf8(f.name).len() as int;
    let fdst = Val::Ptr(Region::Out(block), o + f.offset);
    let kp = Val::Ptr(Region::Data(encode_utf8(f.name)), 0);
    let a = g.iconst(s, 0, Val::Int(f.offset as int));
    let b = g.iadd(a, 1, fdst);
    let c = g.key(b, 2, kp);
    let d = g.iconst(c, 3, Val::Int(len));
    encode_utf8_decode_utf8(f.name);
    encode_utf8_valid_utf8(f.name);
    g.call_three(d, 4, Val::Node(crate::json::get_of(v, f.name)->0), s.world)
}

proof fn lemma_field(
    m: Seq<FuncV>,
    q: FuncV,
    s: State,
    name: Seq<char>,
    fields: Seq<FieldV>,
    k: nat,
    p: Point,
    p1: Point,
    p2: Point,
    to: Point,
    dst: Value,
    json: Value,
    key: usize,
    line: Seq<Inst>,
)
    requires
        k < fields.len(),
        fields[k as int].offset <= i64::MAX,
        encode_utf8(fields[k as int].name).len() <= i64::MAX,
        fields[k as int].ty !is Opt,
        fields[k as int].ty !is Rec,
        fields[k as int].ty !is Ref,
        line == field_line(
            p,
            dst,
            json,
            fields[k as int].offset as i64,
            key,
            encode_utf8(fields[k as int].name).len() as i64,
        ),
        crate::ir::laid(q, p, line),
        crate::ir::keyed(q, key, fields[k as int].name),
        crate::ir::open_at(p),
        crate::ir::extends(p.f, p1.f),
        p1.cur == p.cur,
        crate::ir::size_at(p1) == crate::ir::size_at(p) + 5,
        crate::ir::extends(p1.f, p2.f),
        crate::ir::extends(p2.f, q),
        crate::ir::extends(p2.f, to.f),
        crate::ir::built(p.f, dst),
        crate::ir::built(p.f, json),
        lays_out(fields[k as int].ty, p1, p2, crate::ir::slot(p, 1), crate::ir::slot(p, 4)),
        lays_out_fields(name, fields, k + 1, p2, to, dst, json),
        ready_fields(m, q, s, p, to, name, fields, k, dst, json),
    ensures
        crate::ir::comes(
            m,
            q,
            s,
            p.f,
            to,
            written(s.world, bound_fields(name, fields, k, s, dst, json)->0->Ok_0),
        ),
{
    let f = fields[k as int];
    let (block, o) = match crate::ir::get(s.vals, dst) {
        Some(Val::Ptr(Region::Out(block), o)) => (block, o),
        _ => arbitrary(),
    };
    let v = crate::ir::get(s.vals, json)->0->Node_0;
    let at = crate::interp::further(o as u64, f.offset as int)->0;
    let w = s.world;
    let sub = crate::json::get_of(v, f.name)->0;
    assert(crate::json::get_of(v, f.name) is Some);
    let e = lemma_field_line(m, q, s, p, dst, json, f, key, line, block, o, v);
    crate::ir::lemma_extends_trans(p.f, p1.f, p2.f);
    let first = crate::interp::bind(f.ty, Seq::empty(), 0, sub, block, at, w.ops.len());
    assert(bound(f.ty, e, crate::ir::slot(p, 1), crate::ir::slot(p, 4)) == Some(first));
    assert(ready(m, q, e, p1, p2, f.ty, crate::ir::slot(p, 1), crate::ir::slot(p, 4)));
    let ops = first->Ok_0;
    let t = crate::ir::come(m, q, e, p1.f, p2, written(w, ops));
    crate::ir::go_on(m, q, p.f, s, e, p1.f, t);
    let more = crate::interp::bind_fields(
        name,
        fields,
        k + 1,
        Seq::empty(),
        v,
        block,
        o as u64,
        w.ops.len() + ops.len(),
    );
    assert(bound_fields(name, fields, k + 1, t, dst, json) == Some(more));
    assert(ready_fields(m, q, t, p2, to, name, fields, k + 1, dst, json));
    let u = crate::ir::come(m, q, t, p2.f, to, written(t.world, more->Ok_0));
    crate::ir::go_on(m, q, p.f, s, t, p2.f, u);
    assert(u.world.ops =~= w.ops + (ops + more->Ok_0));
}

/// Adds the code for a struct's fields from the `k`th on.
fn emit_fields(
    f: &mut FuncIr,
    Ghost(name): Ghost<Seq<char>>,
    fields: &Vec<FieldTy>,
    k: usize,
    dst: Value,
    json: Value,
)
    requires
        k <= fields@.len(),
        refused_fields(crate::plan::fields_view(fields@), fields@.len()) is None,
        crate::ir::open_at(old(f).point()),
        crate::ir::size_at(old(f).point()) <= usize::MAX,
        crate::ir::built(old(f)@, dst),
        crate::ir::built(old(f)@, json),
    ensures
        crate::tidy::adds(
            old(f).point(),
            final(f).point(),
            STEP * crate::plan::weight_from(crate::plan::fields_view(fields@), k as nat),
        ),
        advanced(old(f).point(), final(f).point()),
        lays_out_fields(
            name,
            narrow_fields(crate::plan::fields_view(fields@)),
            k as nat,
            old(f).point(),
            final(f).point(),
            dst,
            json,
        ),
    decreases fields, fields@.len() - k,
{
    let ghost p = f.point();
    let ghost fs = narrow_fields(crate::plan::fields_view(fields@));
    if k == fields.len() {
        proof {
            crate::ir::lemma_carried(p, p);
            assert forall|m: Seq<FuncV>, q: FuncV, s: State| #[trigger]
                ready_fields(
                    m,
                    q,
                    s,
                    p,
                    p,
                    name,
                    fs,
                    k as nat,
                    dst,
                    json,
                ) implies crate::ir::comes(
                m,
                q,
                s,
                p.f,
                p,
                written(s.world, bound_fields(name, fs, k as nat, s, dst, json)->0->Ok_0),
            ) by {
                crate::ir::lemma_goes_refl(m, q, s);
                assert(s.world.ops + Seq::<OpV>::empty() =~= s.world.ops);
            }
        }
        return ;
    }
    proof {
        assert(decreases_to!(*fields => fields@));
        assert(decreases_to!(fields@ => fields@[k as int]));
        assert(decreases_to!(fields@[k as int] => fields@[k as int].ty));
        assert(crate::plan::fields_view(fields@)[k as int] == fields@[k as int]@);
        lemma_refused_fields(crate::plan::fields_view(fields@), fields@.len(), k as int);
        crate::ir::lemma_laid_none(p);
    }
    let field = &fields[k];
    let bytes: Vec<u8> = bytes_of(field.name.as_str());
    let off: Value = f.emit(Inst::Iconst(field.offset as i64));
    let fdst: Value = f.emit(Inst::Iadd(dst, off));
    let key: usize = f.key(field.name.clone());
    let kp: Value = f.emit(Inst::Key(key));
    let kl: Value = f.emit(Inst::Iconst(bytes.len() as i64));
    let jn: Value = f.emit(Inst::Call(Shim::ObjGet, Args::Three(json, kp, kl)));
    let ghost p1 = f.point();
    let ghost line = field_line(
        p,
        dst,
        json,
        field.offset as i64,
        key,
        encode_utf8(field.name@).len() as i64,
    );
    assert(crate::ir::laid(f@, p, line));
    assert(crate::ir::extends(p1.f, p1.f));
    value(f, &field.ty, fdst, jn);
    let ghost p2 = f.point();
    assert(crate::ir::extends(p2.f, p2.f));
    emit_fields(f, Ghost(name), fields, k + 1, dst, json);
    let ghost to = f.point();
    proof {
        assert(narrow(field.ty@) == fs[k as int].ty);
        assert forall|m: Seq<FuncV>, q: FuncV, s: State| #[trigger]
            ready_fields(m, q, s, p, to, name, fs, k as nat, dst, json) implies crate::ir::comes(
            m,
            q,
            s,
            p.f,
            to,
            written(s.world, bound_fields(name, fs, k as nat, s, dst, json)->0->Ok_0),
        ) by {
            crate::ir::lemma_has_all(to.f, q);
            lemma_field(m, q, s, name, fs, k as nat, p, p1, p2, to, dst, json, key, line);
        }
    }
}

/// The values and points of the code for a `Vec`.
pub struct VecCode {
    pub elem: TyV,
    pub elem_size: u64,
    pub json: Value,
    /// The size of an item, and how many there are.
    pub esz: Value,
    pub n: Value,
    /// The block for the items.
    pub buf: Value,
    pub header: usize,
    pub body: usize,
    pub cont: usize,
    /// Where all of these had been built, before the loop's blocks were there.
    pub p1: FuncV,
    /// The start of the header; the start of the body; in it, before and after
    /// the item; and its end.
    pub h: Point,
    pub h1: Point,
    pub b: Point,
    pub b1: Point,
    pub b2: Point,
    pub b3: Point,
}

impl VecCode {
    pub open spec fn i(self) -> Value {
        Value::Param(self.header, 0)
    }

    pub open spec fn head_line(self) -> Seq<Inst> {
        Seq::empty().push(Inst::Test(crate::ir::Cc::Uge, self.i(), self.n))
    }

    pub open spec fn body_line(self) -> Seq<Inst> {
        Seq::empty()
            .push(Inst::Imul(self.i(), self.esz))
            .push(Inst::Iadd(self.buf, crate::ir::slot(self.b, 0)))
            .push(Inst::Call(Shim::ArrGet, Args::Two(self.json, self.i())))
    }

    pub open spec fn next_line(self) -> Seq<Inst> {
        Seq::empty().push(Inst::Iconst(1)).push(Inst::Iadd(self.i(), crate::ir::slot(self.b2, 0)))
    }

    pub open spec fn head_end(self) -> Term {
        Term::Brif(
            crate::ir::slot(self.h, 0),
            Target { block: self.cont, args: Args::Zero },
            Target { block: self.body, args: Args::Zero },
        )
    }

    pub open spec fn body_end(self) -> Term {
        Term::Jump(Target { block: self.header, args: Args::One(crate::ir::slot(self.b2, 1)) })
    }

    /// Whether a function has that code.
    pub open spec fn stands_in(self, q: FuncV) -> bool {
        &&& crate::ir::laid(q, self.h, self.head_line())
        &&& crate::ir::sealed(q, self.h1, self.head_end())
        &&& crate::ir::laid(q, self.b, self.body_line())
        &&& crate::ir::laid(q, self.b2, self.next_line())
        &&& crate::ir::sealed(q, self.b3, self.body_end())
        &&& crate::ir::takes(q, self.header, 1)
        &&& crate::ir::takes(q, self.body, 0)
        &&& crate::ir::takes(q, self.cont, 0)
        &&& crate::ir::extends(self.b2.f, q)
    }

    /// Whether the points and values are where they belong.
    pub open spec fn wf(self) -> bool {
        &&& self.header >= self.p1.blocks.len()
        &&& self.body >= self.p1.blocks.len()
        &&& self.cont >= self.p1.blocks.len()
        &&& self.h.cur == self.header
        &&& self.h1.cur == self.header
        &&& crate::ir::size_at(self.h) == 0
        &&& crate::ir::size_at(self.h1) == 1
        &&& self.b.cur == self.body
        &&& self.b1.cur == self.body
        &&& crate::ir::size_at(self.b) == 0
        &&& crate::ir::size_at(self.b1) == 3
        &&& self.b3.cur == self.b2.cur
        &&& crate::ir::size_at(self.b3) == crate::ir::size_at(self.b2) + 2
        &&& crate::ir::open_at(self.h)
        &&& crate::ir::open_at(self.b)
        &&& crate::ir::open_at(self.b2)
        &&& crate::ir::extends(self.p1, self.h.f)
        &&& crate::ir::extends(self.p1, self.b.f)
        &&& crate::ir::extends(self.p1, self.b1.f)
        &&& crate::ir::extends(self.b.f, self.b1.f)
        &&& crate::ir::extends(self.b1.f, self.b2.f)
        &&& crate::ir::extends(self.p1, self.b2.f)
        &&& crate::ir::built(self.p1, self.json)
        &&& crate::ir::built(self.p1, self.esz)
        &&& crate::ir::built(self.p1, self.n)
        &&& crate::ir::built(self.p1, self.buf)
        &&& crate::ir::built(self.h.f, self.i())
        &&& crate::ir::built(self.b.f, self.i())
        &&& lays_out(
            self.elem,
            self.b1,
            self.b2,
            crate::ir::slot(self.b, 1),
            crate::ir::slot(self.b, 2),
        )
    }

    /// Whether the values are those of a loop over items.
    pub open spec fn holds(self, a: State, items: Seq<JsonV>, heap: Block) -> bool {
        &&& crate::ir::get(a.vals, self.json) == Some(Val::Node(JsonV::Array(items)))
        &&& crate::ir::get(a.vals, self.esz) == Some(Val::Int(self.elem_size as int))
        &&& crate::ir::get(a.vals, self.n) == Some(Val::Int(items.len() as int))
        &&& crate::ir::get(a.vals, self.buf) == Some(
            Val::Ptr(Region::Out(heap), 0),
        )
    }

    pub open spec fn items_ops(self, a: State, items: Seq<JsonV>, heap: Block, i: nat) -> Result<
        Seq<OpV>,
        BindErrorV,
    > {
        crate::interp::bind_items(
            self.elem,
            i,
            Seq::empty(),
            items,
            self.elem_size,
            heap,
            a.world.ops.len(),
        )
    }

    /// What the header does: on to the body, or out of the loop.
    proof fn lemma_head(self, m: Seq<FuncV>, q: FuncV, a: State, items: Seq<JsonV>, heap: Block, i: nat) -> (t:
        State)
        requires
            self.wf(),
            self.stands_in(q),
            self.holds(a, items, heap),
            items.len() < 0x1_0000_0000_0000_0000,
            i <= items.len(),
            a.block == self.header,
            a.at == 0,
            crate::ir::get(a.vals, self.i()) == Some(Val::Int(i as int)),
        ensures
            crate::ir::goes(m, q, a, t),
            crate::ir::keeps(self.p1, a, t),
            t.world == a.world,
            t.at == 0,
            i == items.len() ==> t.block == self.cont,
            i < items.len() ==> t.block == self.body,
            crate::ir::get(t.vals, self.i()) == Some(Val::Int(i as int)),
    {
        let g = Line { m, q, p0: self.p1, s0: a, o: self.h, l: self.head_line() };
        crate::ir::lemma_goes_refl(m, q, a);
        let b = g.test(a, 0, crate::ir::truth(i >= items.len()));
        let to = Target {
            block: (if i >= items.len() {
                self.cont
            } else {
                self.body
            }),
            args: Args::Zero,
        };
        crate::ir::goto(m, q, self.p1, a, b, self.h1, self.head_end(), to)
    }

    /// What the body does up to the item.
    proof fn lemma_body(self, m: Seq<FuncV>, q: FuncV, a: State, items: Seq<JsonV>, heap: Block, i: nat) -> (t:
        State)
        requires
            self.wf(),
            self.stands_in(q),
            self.holds(a, items, heap),
            items.len() * self.elem_size <= i64::MAX,
            i < items.len() < 0x1_0000_0000_0000_0000,
            a.block == self.body,
            a.at == 0,
            crate::ir::get(a.vals, self.i()) == Some(Val::Int(i as int)),
        ensures
            crate::ir::goes(m, q, a, t),
            crate::ir::keeps(self.p1, a, t),
            t.world == a.world,
            t.block == self.body,
            t.at == 3,
            0 <= i * self.elem_size <= i64::MAX,
            crate::ir::get(t.vals, self.i()) == Some(Val::Int(i as int)),
            crate::ir::get(t.vals, crate::ir::slot(self.b, 1)) == Some(
                Val::Ptr(Region::Out(heap), i * self.elem_size),
            ),
            crate::ir::get(t.vals, crate::ir::slot(self.b, 2)) == Some(Val::Node(items[i as int])),
    {
        let at = i * self.elem_size;
        assert(0 <= at <= items.len() * self.elem_size) by (nonlinear_arith)
            requires
                at == i * self.elem_size,
                0 <= i <= items.len(),
                self.elem_size >= 0,
        ;
        let g = Line { m, q, p0: self.p1, s0: a, o: self.b, l: self.body_line() };
        crate::ir::lemma_goes_refl(m, q, a);
        let b = g.imul(a, 0, Val::Int(at));
        let c = g.iadd(b, 1, Val::Ptr(Region::Out(heap), at));
        g.call_two(c, 2, Val::Node(items[i as int]), a.world)
    }

    /// What the body does after the item: back to the header.
    proof fn lemma_next(self, m: Seq<FuncV>, q: FuncV, a: State, i: nat) -> (t: State)
        requires
            self.wf(),
            self.stands_in(q),
            i < 0xffff_ffff_ffff_ffff,
            crate::ir::stands(a, self.b2),
            crate::ir::get(a.vals, self.i()) == Some(Val::Int(i as int)),
        ensures
            crate::ir::goes(m, q, a, t),
            crate::ir::keeps(self.p1, a, t),
            t.world == a.world,
            t.block == self.header,
            t.at == 0,
            crate::ir::get(t.vals, self.i()) == Some(Val::Int((i + 1) as int)),
    {
        let g = Line { m, q, p0: self.p1, s0: a, o: self.b2, l: self.next_line() };
        crate::ir::lemma_goes_refl(m, q, a);
        let b = g.iconst(a, 0, Val::Int(1));
        assert(crate::ir::built(self.b2.f, self.i())) by {
            crate::ir::lemma_extends_trans(self.b.f, self.b1.f, self.b2.f);
            crate::ir::lemma_built(self.b.f, self.b2.f, self.i());
        }
        let c = g.iadd(b, 1, Val::Int((i + 1) as int));
        let to = Target { block: self.header, args: Args::One(crate::ir::slot(self.b2, 1)) };
        crate::ir::goto(m, q, self.p1, a, c, self.b3, self.body_end(), to)
    }

    /// The loop lays out the items.
    proof fn lemma_loop(
        self,
        m: Seq<FuncV>,
        q: FuncV,
        a: State,
        items: Seq<JsonV>,
        heap: Block,
        i: nat,
    ) -> (t: State)
        requires
            self.wf(),
            self.stands_in(q),
            self.holds(a, items, heap),
            items.len() * self.elem_size <= i64::MAX,
            i <= items.len() < 0x1_0000_0000_0000_0000,
            a.block == self.header,
            a.at == 0,
            crate::ir::get(a.vals, self.i()) == Some(Val::Int(i as int)),
            self.items_ops(a, items, heap, i) is Ok,
            a.world.ops.len() + self.items_ops(a, items, heap, i)->Ok_0.len() <= usize::MAX,
        ensures
            crate::ir::goes(m, q, a, t),
            crate::ir::keeps(self.p1, a, t),
            t.world == written(a.world, self.items_ops(a, items, heap, i)->Ok_0),
            t.block == self.cont,
            t.at == 0,
        decreases items.len() - i,
    {
        let b = self.lemma_head(m, q, a, items, heap, i);
        if i == items.len() {
            assert(a.world.ops + Seq::<OpV>::empty() =~= a.world.ops);
            return b;
        }
        let c = self.lemma_body(m, q, b, items, heap, i);
        crate::ir::go_on(m, q, self.p1, a, b, self.p1, c);
        let dst = crate::ir::slot(self.b, 1);
        let json = crate::ir::slot(self.b, 2);
        let first = crate::interp::bind(
            self.elem,
            Seq::empty(),
            0,
            items[i as int],
            heap,
            (i * self.elem_size) as u64,
            a.world.ops.len(),
        );
        assert(bound(self.elem, c, dst, json) == Some(first));
        assert(ready(m, q, c, self.b1, self.b2, self.elem, dst, json));
        let ops = first->Ok_0;
        let d = crate::ir::come(m, q, c, self.b1.f, self.b2, written(c.world, ops));
        crate::ir::go_on(m, q, self.p1, a, c, self.b1.f, d);
        crate::ir::lemma_built(self.b.f, self.b1.f, self.i());
        assert(crate::ir::get(d.vals, self.i()) == crate::ir::get(c.vals, self.i()));
        let e = self.lemma_next(m, q, d, i);
        crate::ir::go_on(m, q, self.p1, a, d, self.p1, e);
        let t = self.lemma_loop(m, q, e, items, heap, i + 1);
        crate::ir::go_on(m, q, self.p1, a, e, self.p1, t);
        let more = self.items_ops(e, items, heap, i + 1)->Ok_0;
        assert(t.world.ops =~= a.world.ops + (ops + more));
        t
    }
}

/// The code of a `Vec` before its loop.
pub open spec fn vec_line(p: Point, json: Value, esz: i64, align: i64) -> Seq<Inst> {
    Seq::empty()
        .push(Inst::Iconst(esz))
        .push(Inst::Call(Shim::ArrLen, Args::One(json)))
        .push(Inst::Imul(crate::ir::slot(p, 1), crate::ir::slot(p, 0)))
        .push(Inst::Iconst(align))
        .push(
            Inst::Call(Shim::Alloc, Args::Two(crate::ir::slot(p, 2), crate::ir::slot(p, 3))),
        ).push(Inst::Iconst(0))
}

/// What allocating the block for the items comes to.
pub proof fn lemma_items_block(n: nat, esz: u64, align: u64, w: World)
    requires
        esz <= i64::MAX,
        0 < align <= i64::MAX,
        crate::interp::room_ok(n, esz, align),
        w.ops.len() <= usize::MAX,
    ensures
        0 <= n * esz <= i64::MAX,
        crate::ir::alloc_call(n * esz, align as int, w) matches Some((v, w2)) && {
            &&& v == Val::Ptr(Region::Out(crate::interp::home(n * esz, align, w.ops.len())), 0)
            &&& w2 == written(w, crate::interp::home_ops(n * esz, align))
        },
{
    assert(0 <= n * esz) by (nonlinear_arith)
        requires
            0 <= esz,
            n >= 0,
    ;    let (v, w2) = crate::ir::alloc_call(n * esz, align as int, w)->0;
    assert(w2.ops =~= w.ops + crate::interp::home_ops(n * esz, align));
}

/// Makes the block for the items.
proof fn lemma_vec_line(
    m: Seq<FuncV>,
    q: FuncV,
    s: State,
    p: Point,
    json: Value,
    esz: u64,
    align: u64,
    items: Seq<JsonV>,
    line: Seq<Inst>,
    size: int,
    v: Val,
    w: World,
) -> (t: State)
    requires
        esz <= i64::MAX,
        align <= i64::MAX,
        line == vec_line(p, json, esz as i64, align as i64),
        crate::ir::laid(q, p, line),
        crate::ir::open_at(p),
        crate::ir::stands(s, p),
        crate::ir::built(p.f, json),
        crate::ir::get(s.vals, json) == Some(Val::Node(JsonV::Array(items))),
        items.len() < 0x1_0000_0000_0000_0000,
        size == items.len() * esz,
        0 <= size <= i64::MAX,
        crate::ir::alloc_call(size, align as int, s.world) == Some((v, w)),
    ensures
        crate::ir::goes(m, q, s, t),
        crate::ir::keeps(p.f, s, t),
        t.block == p.cur,
        t.at == crate::ir::size_at(p) + 6,
        crate::ir::get(t.vals, crate::ir::slot(p, 0)) == Some(Val::Int(esz as int)),
        crate::ir::get(t.vals, crate::ir::slot(p, 1)) == Some(Val::Int(items.len() as int)),
        crate::ir::get(t.vals, crate::ir::slot(p, 4)) == Some(v),
        crate::ir::get(t.vals, crate::ir::slot(p, 5)) == Some(Val::Int(0)),
        t.world == w,
{
    let n = items.len() as int;
    let g = Line { m, q, p0: p.f, s0: s, o: p, l: line };
    g.begin(s);
    let a = g.iconst(s, 0, Val::Int(esz as int));
    let b = g.call_one(a, 1, Val::Int(n), s.world);
    let c = g.imul(b, 2, Val::Int(size));
    let d = g.iconst(c, 3, Val::Int(align as int));
    let e = g.call_two(d, 4, v, w);
    g.iconst(e, 5, Val::Int(0))
}

/// The code for a `Vec` lays it out.
proof fn lemma_vec(
    m: Seq<FuncV>,
    q: FuncV,
    s: State,
    c: VecCode,
    align: u64,
    elem_align: u64,
    seq: SeqLayout,
    p: Point,
    p1: Point,
    z: Point,
    line: Seq<Inst>,
    k: Point,
    to: Point,
    dst: Value,
)
    requires
        c.wf(),
        c.stands_in(q),
        c.elem_size <= i64::MAX,
        0 < align <= i64::MAX,
        elem_align == 0 ==> align == 1,
        elem_align > 0 ==> align == elem_align,
        line == vec_line(p, c.json, c.elem_size as i64, align as i64),
        crate::ir::laid(q, p, line),
        crate::ir::open_at(p),
        c.p1 == p1.f,
        c.esz == crate::ir::slot(p, 0),
        c.n == crate::ir::slot(p, 1),
        c.buf == crate::ir::slot(p, 4),
        z.cur == p.cur,
        crate::ir::size_at(z) == crate::ir::size_at(p) + 6,
        crate::ir::sealed(
            q,
            z,
            Term::Jump(
                Target { block: c.header, args: Args::One(crate::ir::slot(p, 5)) },
            ),
        ),
        crate::ir::extends(p.f, p1.f),
        crate::ir::built(p.f, dst),
        crate::ir::built(p.f, c.json),
        crate::ir::built(p1.f, crate::ir::slot(p, 5)),
        k.cur == c.cont,
        crate::ir::size_at(k) == 0,
        crate::ir::extends(p1.f, k.f),
        writes_words(seq, k, to, dst, c.buf, c.n),
        ready(
            m,
            q,
            s,
            p,
            to,
            TyV::Vec { elem: Box::new(c.elem), elem_size: c.elem_size, elem_align, seq },
            dst,
            c.json,
        ),
    ensures
        crate::ir::comes(
            m,
            q,
            s,
            p.f,
            to,
            written(
                s.world,
                bound(
                    TyV::Vec { elem: Box::new(c.elem), elem_size: c.elem_size, elem_align, seq },
                    s,
                    dst,
                    c.json,
                )->0->Ok_0,
            ),
        ),
{
    let ty = TyV::Vec { elem: Box::new(c.elem), elem_size: c.elem_size, elem_align, seq };
    let items = crate::ir::get(s.vals, c.json)->0->Node_0->Array_0;
    let (block, o) = match crate::ir::get(s.vals, dst) {
        Some(Val::Ptr(Region::Out(block), o)) => (block, o),
        _ => arbitrary(),
    };
    let want = bound(ty, s, dst, c.json)->0->Ok_0;
    let size = items.len() * c.elem_size;
    let heap = crate::interp::home(size, align, s.world.ops.len());
    lemma_items_block(items.len(), c.elem_size, align, s.world);
    let (v, w) = crate::ir::alloc_call(size, align as int, s.world)->0;
    let a = lemma_vec_line(m, q, s, p, c.json, c.elem_size, align, items, line, size, v, w);
    let first = Target { block: c.header, args: Args::One(crate::ir::slot(p, 5)) };
    let b = crate::ir::goto(m, q, p.f, s, a, z, Term::Jump(first), first);
    assert(crate::ir::keeps(p1.f, a, b)) by {
        assert forall|v: Value| crate::ir::built(p1.f, v) implies #[trigger] crate::ir::get(
            b.vals,
            v,
        ) == crate::ir::get(a.vals, v) by {
            assert(v != c.i());
        }
    }
    assert(c.holds(b, items, heap));
    let e = c.lemma_loop(m, q, b, items, heap, 0);
    crate::ir::go_on(m, q, p.f, s, b, p1.f, e);
    let ops = c.items_ops(b, items, heap, 0)->Ok_0;
    assert(crate::ir::get(e.vals, dst) == crate::ir::get(s.vals, dst));
    assert(crate::ir::get(e.vals, c.buf) == crate::ir::get(a.vals, c.buf));
    assert(crate::ir::get(e.vals, c.n) == crate::ir::get(a.vals, c.n));
    assert(ready_words(m, q, e, k, to, seq, dst, c.buf, c.n));
    let words = words_at(seq, e, dst, c.buf, c.n)->0->Ok_0;
    let t = crate::ir::come(m, q, e, k.f, to, written(e.world, words));
    crate::ir::lemma_extends_trans(p.f, p1.f, k.f);
    crate::ir::go_on(m, q, p.f, s, e, k.f, t);
    assert(t.world.ops =~= s.world.ops + want);
}

/// Adds the code that lays out, at `dst`, the document at `json`.
fn value(f: &mut FuncIr, ty: &Ty, dst: Value, json: Value)
    requires
        refused(ty@) is None,
        crate::ir::open_at(old(f).point()),
        crate::ir::size_at(old(f).point()) <= usize::MAX,
        crate::ir::built(old(f)@, dst),
        crate::ir::built(old(f)@, json),
    ensures
        crate::tidy::adds(old(f).point(), final(f).point(), STEP * crate::plan::weight(ty@)),
        advanced(old(f).point(), final(f).point()),
        lays_out(narrow(ty@), old(f).point(), final(f).point(), dst, json),
    decreases ty, 0nat,
{
    match ty {
        Ty::Bool => bind_int(f, Ghost(TyV::Bool), 1, Shim::AsBool, dst, json),
        Ty::Char => bind_int(f, Ghost(TyV::Char), 4, Shim::AsChar, dst, json),
        Ty::U(n) => {
            let width: u8 = width_of(*n);
            bind_int(f, Ghost(TyV::U(width)), width, Shim::AsU64, dst, json)
        },
        Ty::I(n) => {
            let width: u8 = width_of(*n);
            bind_int(f, Ghost(TyV::I(width)), width, Shim::AsI64, dst, json)
        },
        Ty::F32 => bind_float(f, 4, dst, json),
        Ty::F64 => bind_float(f, 8, dst, json),
        Ty::Str(seq) => emit_str(f, seq, dst, json),
        Ty::StrRef { ptr_off, len_off } => emit_str_ref(f, *ptr_off, *len_off, dst, json),
        Ty::Struct { name, fields } => {
            let ghost p = f.point();
            emit_fields(f, Ghost(name@), fields, 0, dst, json);
            proof {
                let fs = narrow_fields(crate::plan::fields_view(fields@));
                let to = f.point();
                assert forall|m: Seq<FuncV>, q: FuncV, s: State| #[trigger]
                    ready(m, q, s, p, to, narrow(ty@), dst, json) implies crate::ir::comes(
                    m,
                    q,
                    s,
                    p.f,
                    to,
                    written(s.world, bound(narrow(ty@), s, dst, json)->0->Ok_0),
                ) by {
                    assert(bound(narrow(ty@), s, dst, json) == bound_fields(
                        name@,
                        fs,
                        0,
                        s,
                        dst,
                        json,
                    ));
                    assert(ready_fields(m, q, s, p, to, name@, fs, 0, dst, json));
                }
            }
        },
        Ty::Vec { elem, elem_size, elem_align, seq } => emit_vec(
            f,
            elem,
            *elem_size,
            *elem_align,
            seq,
            dst,
            json,
        ),
        _ => {},
    }
}

/// Adds the code for a `Vec`.
#[verifier::spinoff_prover]
#[verifier::rlimit(100)]
fn emit_vec(
    f: &mut FuncIr,
    elem: &Ty,
    elem_size: u64,
    elem_align: u64,
    seq: &SeqLayout,
    dst: Value,
    json: Value,
)
    requires
        near(*seq),
        refused(elem@) is None,
        elem_size <= i64::MAX,
        elem_align <= i64::MAX,
        crate::ir::open_at(old(f).point()),
        crate::ir::size_at(old(f).point()) <= usize::MAX,
        crate::ir::built(old(f)@, dst),
        crate::ir::built(old(f)@, json),
    ensures
        crate::tidy::adds(old(f).point(), final(f).point(), STEP * (1 + crate::plan::weight(elem@))),
        advanced(old(f).point(), final(f).point()),
        lays_out(
            (TyV::Vec {
                elem: Box::new(narrow(elem@)),
                elem_size,
                elem_align,
                seq: *seq,
            }),
            old(f).point(),
            final(f).point(),
            dst,
            json,
        ),
    decreases elem, 1nat,
{
    let ghost p = f.point();
    proof {
        crate::ir::lemma_laid_none(p);
    }
    let least: u64 = if elem_align == 0 {
        1
    } else {
        elem_align
    };
    let esz: Value = f.emit(Inst::Iconst(elem_size as i64));
    let n: Value = f.emit(Inst::Call(Shim::ArrLen, Args::One(json)));
    let total: Value = f.emit(Inst::Imul(n, esz));
    let align: Value = f.emit(Inst::Iconst(least as i64));
    let buf: Value = f.emit(Inst::Call(Shim::Alloc, Args::Two(total, align)));
    let zero: Value = f.emit(Inst::Iconst(0));
    let ghost line = vec_line(p, json, elem_size as i64, least as i64);
    let ghost p1 = f.point();
    assert(crate::ir::laid(f@, p, line));
    assert(crate::ir::extends(p1.f, p1.f));
    let header: usize = f.create_block(1);
    let body: usize = f.create_block(0);
    let cont: usize = f.create_block(0);
    let ghost z = f.point();
    f.end(Term::Jump(Target { block: header, args: Args::One(zero) }));
    f.switch_to(header);
    let ghost h = f.point();
    let i: Value = Value::Param(header, 0);
    let done: Value = f.emit(Inst::Test(Cc::Uge, i, n));
    let ghost h1 = f.point();
    f.end(
        Term::Brif(
            done,
            Target { block: cont, args: Args::Zero },
            Target { block: body, args: Args::Zero },
        ),
    );
    f.switch_to(body);
    let ghost b = f.point();
    let off: Value = f.emit(Inst::Imul(i, esz));
    let edst: Value = f.emit(Inst::Iadd(buf, off));
    let ej: Value = f.emit(Inst::Call(Shim::ArrGet, Args::Two(json, i)));
    let ghost b1 = f.point();
    assert(crate::ir::extends(b1.f, b1.f));
    value(f, elem, edst, ej);
    let ghost b2 = f.point();
    proof {
        crate::ir::lemma_laid_none(b2);
    }
    let one: Value = f.emit(Inst::Iconst(1));
    let next: Value = f.emit(Inst::Iadd(i, one));
    let ghost b3 = f.point();
    f.end(Term::Jump(Target { block: header, args: Args::One(next) }));
    f.switch_to(cont);
    let ghost k = f.point();
    store_seq(f, seq, dst, buf, n);
    let ghost to = f.point();
    let ghost c = VecCode {
        elem: narrow(elem@),
        elem_size,
        json,
        esz,
        n,
        buf,
        header,
        body,
        cont,
        p1: p1.f,
        h,
        h1,
        b,
        b1,
        b2,
        b3,
    };
    proof {
        let ty = TyV::Vec { elem: Box::new(narrow(elem@)), elem_size, elem_align, seq: *seq };
        assert(crate::ir::laid(to.f, h, c.head_line()));
        assert(crate::ir::laid(to.f, b, c.body_line()));
        assert(crate::ir::laid(to.f, b2, c.next_line()));
        assert(c.wf());
        assert forall|m: Seq<FuncV>, q: FuncV, s: State| #[trigger]
            ready(m, q, s, p, to, ty, dst, json) implies crate::ir::comes(
            m,
            q,
            s,
            p.f,
            to,
            written(s.world, bound(ty, s, dst, json)->0->Ok_0),
        ) by {
            crate::ir::lemma_has_all(to.f, q);
            assert(c.stands_in(q));
            lemma_vec(m, q, s, c, least, elem_align, *seq, p, p1, z, line, k, to, dst);
        }
    }
}

/// Whether a function lays out a document as a type: called with a place and the
/// document, it writes what binding the one to the other lists.
pub open spec fn binds(ty: TyV, f: FuncV) -> bool {
    forall|m: Seq<FuncV>, v: JsonV, block: Block, off: u64, w: World| #[trigger]
        binds_one(ty, m, f, v, block, off, w)
}

pub open spec fn binds_one(
    ty: TyV,
    m: Seq<FuncV>,
    f: FuncV,
    v: JsonV,
    block: Block,
    off: u64,
    w: World,
) -> bool {
    match crate::interp::bind(ty, Seq::empty(), 0, v, block, off, w.ops.len()) {
        Ok(ops) => w.ops.len() + ops.len() <= usize::MAX ==> gives_back(
            m,
            f,
            Seq::empty().push(Val::Ptr(Region::Out(block), off as int)).push(Val::Node(v)),
            w,
            Val::Int(0),
            written(w, ops),
        ),
        Err(_) => true,
    }
}

/// Whether a function, called with some arguments, returns a value and leaves a
/// world.
pub open spec fn gives_back(
    m: Seq<FuncV>,
    f: FuncV,
    args: Seq<Val>,
    w: World,
    v: Val,
    after: World,
) -> bool {
    exists|n: nat| #[trigger]
        crate::ir::run(m, f, crate::ir::entry(args, w), n) == Some((v, after))
}

/// Where a state that is gone to returns, the first state returns.
pub proof fn lemma_gives_back(m: Seq<FuncV>, q: FuncV, s: State, t: State, r: (Val, World)) -> (n: nat)
    requires
        crate::ir::goes(m, q, s, t),
        crate::ir::returned(q, t) == Some(r),
    ensures
        crate::ir::run(m, q, s, n) == Some(r),
{
    reveal(crate::ir::goes);
    let k = choose|k: nat| crate::ir::goes_in(m, q, s, t, k);
    assert(crate::ir::run(m, q, t, 1) == Some(r));
    k + 1
}

/// Why no binder can be compiled for a type, where none can: it cannot be laid out by
/// code, or is too large.
pub open spec fn turned_down(ty: TyV) -> Option<CompileError> {
    match refused(ty) {
        Some(e) => Some(e),
        None => if crate::plan::weight(ty) > crate::plan::MAX_WEIGHT {
            Some(CompileError::Large)
        } else {
            None
        },
    }
}

/// The code of a binder for a type. It can be handed over.
pub fn code(ty: &Ty) -> (r: Result<FuncIr, CompileError>)
    ensures
        match turned_down(ty@) {
            Some(e) => r == Err::<FuncIr, CompileError>(e),
            None => r is Ok && r->Ok_0@.blocks.len() > 0 && r->Ok_0@.blocks[0].params == 2 && binds(
                narrow(ty@),
                r->Ok_0@,
            ) && crate::jit::all_fit(&r->Ok_0, Seq::empty()),
        },
{
    match check(ty) {
        Some(e) => {
            return Err(e);
        },
        None => {},
    }
    if crate::plan::weigh(ty) > crate::plan::MAX_WEIGHT {
        return Err(CompileError::Large);
    }
    let mut f: FuncIr = FuncIr::new(2);
    let dst: Value = Value::Param(0, 0);
    let json: Value = Value::Param(0, 1);
    let ghost p = f.point();
    value(&mut f, ty, dst, json);
    let ghost to = f.point();
    f.end(Term::Return(Args::Zero));
    proof {
        crate::tidy::lemma_fits(f.point(), 0);
        let q = f@;
        let t = narrow(ty@);
        assert forall|m: Seq<FuncV>, v: JsonV, block: Block, off: u64, w: World| #[trigger]
            binds_one(t, m, q, v, block, off, w) by {
            let want = crate::interp::bind(t, Seq::empty(), 0, v, block, off, w.ops.len());
            if want is Ok && w.ops.len() + want->Ok_0.len() <= usize::MAX {
                let args = Seq::empty().push(Val::Ptr(Region::Out(block), off as int)).push(
                    Val::Node(v),
                );
                let s = crate::ir::entry(args, w);
                assert(crate::ir::get(s.vals, dst) == Some(args[0]));
                assert(crate::ir::get(s.vals, json) == Some(args[1]));
                assert(bound(t, s, dst, json) == Some(want));
                assert(ready(m, q, s, p, to, t, dst, json));
                let u = crate::ir::come(m, q, s, p.f, to, written(w, want->Ok_0));
                let n = lemma_gives_back(m, q, s, u, (Val::Int(0), written(w, want->Ok_0)));
                assert(crate::ir::run(m, q, crate::ir::entry(args, w), n) == Some(
                    (Val::Int(0), written(w, want->Ok_0)),
                ));
            }
        }
        assert(crate::ir::block_extends(p.f.blocks[0], to.f.blocks[0]));
        assert(crate::ir::block_extends(to.f.blocks[0], q.blocks[0]));
    }
    Ok(f)
}

/// A compiled binder and the interpreter do the same: for a type whose integers
/// have one, two, four or eight bytes, called with a place and a document, the
/// code writes what [`crate::interp::run`] lists.
pub proof fn law_binder_is_interpreter(ty: TyV, f: FuncV, m: Seq<FuncV>, v: JsonV)
    requires
        binds(narrow(ty), f),
        narrow(ty) == ty,
        crate::interp::bind(ty, Seq::empty(), 0, v, Block::Dest, 0, 0) is Ok,
        crate::interp::bind(ty, Seq::empty(), 0, v, Block::Dest, 0, 0)->Ok_0.len() <= usize::MAX,
    ensures
        gives_back(
            m,
            f,
            Seq::empty().push(Val::Ptr(Region::Out(Block::Dest), 0)).push(Val::Node(v)),
            (World { ops: Seq::empty(), scratch: None }),
            Val::Int(0),
            (World {
                ops: crate::interp::bind(ty, Seq::empty(), 0, v, Block::Dest, 0, 0)->Ok_0,
                scratch: None,
            }),
        ),
{
    let w = World { ops: Seq::empty(), scratch: None };
    assert(binds_one(ty, m, f, v, Block::Dest, 0, w));
    let ops = crate::interp::bind(ty, Seq::empty(), 0, v, Block::Dest, 0, 0)->Ok_0;
    assert(Seq::<OpV>::empty() + ops =~= ops);
}

// ---------------------------------------------------------------------------
// Which types binders are made for.
// ---------------------------------------------------------------------------

/// Whether code lays values of a type out, as far as its parts are laid out.
pub open spec fn is_laid_out(t: TyV) -> bool {
    match t {
        TyV::Bool | TyV::Char | TyV::U(_) | TyV::I(_) | TyV::F32 | TyV::F64 => true,
        TyV::Str(seq) => seq.ptr_off < 0x8000_0000 && seq.cap_off < 0x8000_0000 && seq.len_off < 0x8000_0000,
        TyV::StrRef { ptr_off, len_off } => ptr_off < 0x8000_0000 && len_off < 0x8000_0000,
        TyV::Struct { name, fields } => forall|k: int|
            0 <= k < fields.len() ==> (#[trigger] fields[k]).offset <= i64::MAX && encode_utf8(fields[k].name).len()
                <= i64::MAX,
        TyV::Vec { elem, elem_size, elem_align, seq } => elem_size <= i64::MAX && elem_align <= i64::MAX && seq.ptr_off
            < 0x8000_0000 && seq.cap_off < 0x8000_0000 && seq.len_off < 0x8000_0000,
        _ => false,
    }
}

proof fn lemma_laid_out(ty: TyV, t: TyV, n: nat)
    requires
        refused(ty) is None,
        crate::plan::is_in(t, ty, n),
    ensures
        is_laid_out(t),
    decreases n,
{
    if let TyV::Struct { name, fields } = ty {
        assert forall|k: int| 0 <= k < fields.len() implies (#[trigger] fields[k]).offset <= i64::MAX && encode_utf8(
            fields[k].name,
        ).len() <= i64::MAX && refused(fields[k].ty) is None by {
            lemma_refused_fields(fields, fields.len(), k);
        }
    }
    if n > 0 {
        let p = choose|p: TyV| #[trigger] crate::plan::is_part(p, ty) && crate::plan::is_in(t, p, (n - 1) as nat);
        lemma_laid_out(p, t, (n - 1) as nat);
    }
}

/// Whether all types in a type are laid out.
pub open spec fn all_laid_out(ty: TyV) -> bool {
    forall|t: TyV, n: nat| #[trigger] crate::plan::is_in(t, ty, n) ==> is_laid_out(t)
}

proof fn lemma_part_laid_out(ty: TyV, p: TyV)
    requires
        all_laid_out(ty),
        crate::plan::is_part(p, ty),
    ensures
        all_laid_out(p),
{
    assert forall|t: TyV, n: nat| #[trigger] crate::plan::is_in(t, p, n) implies is_laid_out(t) by {
        assert(crate::plan::is_in(t, ty, n + 1));
    }
}

proof fn lemma_not_refused(ty: TyV)
    requires
        all_laid_out(ty),
    ensures
        refused(ty) is None,
    decreases ty, 0nat,
{
    assert(crate::plan::is_in(ty, ty, 0));
    match ty {
        TyV::Struct { name, fields } => {
            lemma_not_refused_fields(name, fields, fields.len());
        },
        TyV::Vec { elem, elem_size, elem_align, seq } => {
            lemma_part_laid_out(ty, *elem);
            lemma_not_refused(*elem);
        },
        _ => {},
    }
}

proof fn lemma_not_refused_fields(name: Seq<char>, fields: Seq<FieldV>, n: nat)
    requires
        n <= fields.len(),
        all_laid_out((TyV::Struct { name, fields })),
    ensures
        refused_fields(fields, n) is None,
    decreases fields, n,
{
    if n > 0 {
        let ty = TyV::Struct { name, fields };
        lemma_not_refused_fields(name, fields, (n - 1) as nat);
        assert(crate::plan::is_in(ty, ty, 0));
        assert(fields[n - 1].offset <= i64::MAX);
        assert(crate::plan::is_part(fields[n - 1].ty, ty));
        lemma_part_laid_out(ty, fields[n - 1].ty);
        lemma_not_refused(fields[n - 1].ty);
    }
}

/// A binder is made for just those types, not too large, in which every type is a
/// truth value, a character, a number, a string, a struct or a `Vec`, with offsets and
/// sizes that code can hold.
pub proof fn law_binder_is_made_for_what_is_laid_out(ty: TyV)
    ensures
        turned_down(ty) is None <==> all_laid_out(ty) && crate::plan::weight(ty) <= 2_000_000,
        turned_down(ty) == Some(CompileError::Large) ==> all_laid_out(ty),
{
    if refused(ty) is None {
        assert forall|t: TyV, n: nat| #[trigger] crate::plan::is_in(t, ty, n) implies is_laid_out(t) by {
            lemma_laid_out(ty, t, n);
        }
    }
    if all_laid_out(ty) {
        lemma_not_refused(ty);
    }
    lemma_refused_is_not_large(ty);
}

proof fn lemma_refused_is_not_large(ty: TyV)
    ensures
        refused(ty) != Some(CompileError::Large),
    decreases ty, 0nat,
{
    match ty {
        TyV::Struct { name, fields } => lemma_fields_not_large(fields, fields.len()),
        TyV::Vec { elem, .. } => lemma_refused_is_not_large(*elem),
        _ => {},
    }
}

proof fn lemma_fields_not_large(fields: Seq<FieldV>, n: nat)
    ensures
        refused_fields(fields, n) != Some(CompileError::Large),
    decreases fields, n,
{
    if n > 0 && n <= fields.len() {
        lemma_fields_not_large(fields, (n - 1) as nat);
        lemma_refused_is_not_large(fields[n - 1].ty);
    }
}

/// Whether every integer in a type takes one, two, four or eight bytes.
pub open spec fn has_common_widths(ty: TyV) -> bool {
    forall|t: TyV, n: nat| #[trigger]
        crate::plan::is_in(t, ty, n) ==> match t {
            TyV::U(w) => w == 1 || w == 2 || w == 4 || w == 8,
            TyV::I(w) => w == 1 || w == 2 || w == 4 || w == 8,
            _ => true,
        }
}

proof fn lemma_part_has_common_widths(ty: TyV, p: TyV)
    requires
        has_common_widths(ty),
        crate::plan::is_part(p, ty),
    ensures
        has_common_widths(p),
{
    assert forall|t: TyV, n: nat| #[trigger] crate::plan::is_in(t, p, n) implies match t {
        TyV::U(w) => w == 1 || w == 2 || w == 4 || w == 8,
        TyV::I(w) => w == 1 || w == 2 || w == 4 || w == 8,
        _ => true,
    } by {
        assert(crate::plan::is_in(t, ty, n + 1));
    }
}

/// Code lays a type out as it is, where every integer in it takes one, two, four or
/// eight bytes.
pub proof fn law_common_widths_are_kept(ty: TyV)
    requires
        has_common_widths(ty),
    ensures
        narrow(ty) == ty,
    decreases ty, 0nat,
{
    assert(crate::plan::is_in(ty, ty, 0));
    match ty {
        TyV::Struct { name, fields } => {
            lemma_common_widths_of_fields(name, fields, fields.len());
            assert(narrow_fields(fields) =~= fields);
        },
        TyV::Vec { elem, elem_size, elem_align, seq } => {
            lemma_part_has_common_widths(ty, *elem);
            law_common_widths_are_kept(*elem);
        },
        _ => {},
    }
}

proof fn lemma_common_widths_of_fields(name: Seq<char>, fields: Seq<FieldV>, n: nat)
    requires
        n <= fields.len(),
        has_common_widths((TyV::Struct { name, fields })),
    ensures
        forall|k: int| 0 <= k < n ==> narrow((#[trigger] fields[k]).ty) == fields[k].ty,
    decreases fields, n,
{
    if n > 0 {
        let ty = TyV::Struct { name, fields };
        lemma_common_widths_of_fields(name, fields, (n - 1) as nat);
        assert(crate::plan::is_part(fields[n - 1].ty, ty));
        lemma_part_has_common_widths(ty, fields[n - 1].ty);
        law_common_widths_are_kept(fields[n - 1].ty);
    }
}

} // verus!
