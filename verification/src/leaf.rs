//! Code that reads, from raw JSON, values that hold no others: numbers, truth
//! values, characters, strings.
use crate::ascii::{LOWER_F, LOWER_T};
use crate::binder::{store_at, store_seq};
use crate::cursor::{load_u8, ws};
use crate::digits::intval;
use crate::interp::{Block, OpV};
use crate::ir::{
    Args, Cc, FuncIr, FuncV, Inst, Point, Region, Shim, State, Val, Value, World,
};
use crate::plan::{SeqLayout, TyV};
use crate::span::strspan;
use crate::steps::Line;
use vstd::prelude::*;

verus! {

/// What the code of a parser has at hand everywhere: the end of the input, and
/// the scratch space.
#[derive(Clone, Copy, PartialEq, Eq, Structural, Debug)]
pub struct Pctx {
    pub end: Value,
    pub sc: Value,
}

/// The block that a value points into.
pub open spec fn block_of(s: State, dst: Value) -> Block {
    match crate::ir::get(s.vals, dst) {
        Some(Val::Ptr(Region::Out(block), _)) => block,
        _ => Block::Dest,
    }
}

/// The offset in that block.
pub open spec fn off_of(s: State, dst: Value) -> int {
    match crate::ir::get(s.vals, dst) {
        Some(Val::Ptr(Region::Out(_), off)) => off,
        _ => 0,
    }
}

/// Whether a value points to where a value can be laid out.
pub open spec fn place(s: State, dst: Value) -> bool {
    &&& crate::ir::get(s.vals, dst) == Some(Val::Ptr(Region::Out(block_of(s, dst)), off_of(s, dst)))
    &&& 0 <= off_of(s, dst) <= u64::MAX
}

/// Whether a state is one that reading can start from.
pub open spec fn set_up(s: State, dst: Value, cur: Value, x: Pctx) -> bool {
    &&& crate::cursor::input(s, cur, x.end)
    &&& place(s, dst)
    &&& crate::ir::get(s.vals, x.sc) == Some(Val::Ptr(Region::Scratch, 0))
}

/// Whether code has read a value: it has come to a point, with what had been
/// built before unchanged, the cursor after the value, and its writes done.
pub open spec fn read_at(
    s: State,
    t: State,
    p: Point,
    to: Point,
    r: Value,
    d: Seq<u8>,
    ops: Seq<OpV>,
    e: int,
) -> bool {
    &&& crate::ir::stands(t, to)
    &&& crate::ir::keeps(p.f, s, t)
    &&& crate::ir::get(t.vals, r) == Some(crate::cursor::spot(d, e))
    &&& t.world.ops == s.world.ops + ops
}

pub open spec fn read_to(
    m: Seq<FuncV>,
    q: FuncV,
    s: State,
    p: Point,
    to: Point,
    r: Value,
    d: Seq<u8>,
    ops: Seq<OpV>,
    e: int,
) -> bool {
    exists|t: State| #[trigger] crate::ir::goes(m, q, s, t) && read_at(s, t, p, to, r, d, ops, e)
}

/// The state that the code comes to.
pub proof fn read_got(
    m: Seq<FuncV>,
    q: FuncV,
    s: State,
    p: Point,
    to: Point,
    r: Value,
    d: Seq<u8>,
    ops: Seq<OpV>,
    e: int,
) -> (t: State)
    requires
        read_to(m, q, s, p, to, r, d, ops, e),
    ensures
        crate::ir::goes(m, q, s, t),
        read_at(s, t, p, to, r, d, ops, e),
{
    choose|t: State| #[trigger] crate::ir::goes(m, q, s, t) && read_at(s, t, p, to, r, d, ops, e)
}

/// What reading such a value comes to.
pub open spec fn leaf_result(ty: TyV, s: State, dst: Value, cur: Value, x: Pctx) -> Option<
    (Seq<OpV>, int),
> {
    crate::read::read(
        0,
        ty,
        Seq::empty(),
        crate::cursor::data(s, x.end),
        crate::cursor::pos(s, cur),
        block_of(s, dst),
        off_of(s, dst) as u64,
        s.world.ops.len(),
    )
}

/// The writes of that.
pub open spec fn leaf_ops(ty: TyV, s: State, dst: Value, cur: Value, x: Pctx) -> Seq<OpV> {
    match leaf_result(ty, s, dst, cur, x) {
        Some((ops, _)) => ops,
        None => Seq::empty(),
    }
}

/// The position after that.
pub open spec fn leaf_end(ty: TyV, s: State, dst: Value, cur: Value, x: Pctx) -> int {
    match leaf_result(ty, s, dst, cur, x) {
        Some((_, e)) => e,
        None => 0,
    }
}

pub open spec fn ready_leaf(
    m: Seq<FuncV>,
    q: FuncV,
    s: State,
    p: Point,
    to: Point,
    ty: TyV,
    dst: Value,
    cur: Value,
    x: Pctx,
) -> bool {
    &&& crate::ir::extends(to.f, q)
    &&& crate::ir::stands(s, p)
    &&& set_up(s, dst, cur, x)
    &&& leaf_result(ty, s, dst, cur, x) is Some
    &&& s.world.ops.len() + leaf_ops(ty, s, dst, cur, x).len() <= usize::MAX
}

/// Whether the code between two points reads such a value.
pub open spec fn reads_leaf(
    ty: TyV,
    p: Point,
    to: Point,
    dst: Value,
    cur: Value,
    x: Pctx,
    r: Value,
) -> bool {
    forall|m: Seq<FuncV>, q: FuncV, s: State| #[trigger]
        ready_leaf(m, q, s, p, to, ty, dst, cur, x) ==> read_to(
            m,
            q,
            s,
            p,
            to,
            r,
            crate::cursor::data(s, x.end),
            leaf_ops(ty, s, dst, cur, x),
            leaf_end(ty, s, dst, cur, x),
        )
}

/// Whether a function that is being built can be built on with these values.
pub open spec fn can_build(f: FuncIr, dst: Value, cur: Value, x: Pctx) -> bool {
    &&& crate::ir::open_at(f.point())
    &&& crate::ir::size_at(f.point()) <= usize::MAX
    &&& crate::ir::built(f@, dst)
    &&& crate::ir::built(f@, cur)
    &&& crate::ir::built(f@, x.end)
    &&& crate::ir::built(f@, x.sc)
}

// ---------------------------------------------------------------------------
// Storing.
// ---------------------------------------------------------------------------

/// The number that a value is.
pub open spec fn number_of(s: State, v: Value) -> int {
    match crate::ir::get(s.vals, v) {
        Some(Val::Int(x)) => x,
        _ => 0,
    }
}

pub open spec fn ready_store(
    m: Seq<FuncV>,
    q: FuncV,
    s: State,
    p: Point,
    to: Point,
    base: Value,
    off: usize,
    v: Value,
) -> bool {
    &&& crate::ir::extends(to.f, q)
    &&& crate::ir::stands(s, p)
    &&& place(s, base)
    &&& off_of(s, base) + off <= u64::MAX
    &&& crate::ir::get(s.vals, v) == Some(Val::Int(number_of(s, v)))
    &&& 0 <= number_of(s, v) < 0x1_0000_0000_0000_0000
}

/// What storing the low bytes of a number writes.
pub open spec fn sized_op(s: State, base: Value, off: usize, v: Value, width: u8) -> OpV {
    crate::interp::put(
        block_of(s, base),
        (off_of(s, base) + off) as u64,
        crate::arith::le(number_of(s, v) as nat, width as nat),
    )
}

/// Whether the code between two points stores the low bytes of a number.
pub open spec fn stores_sized(
    p: Point,
    to: Point,
    base: Value,
    off: usize,
    v: Value,
    width: u8,
) -> bool {
    forall|m: Seq<FuncV>, q: FuncV, s: State| #[trigger]
        ready_store(m, q, s, p, to, base, off, v) ==> crate::ir::comes(
            m,
            q,
            s,
            p.f,
            to,
            crate::ir::push_op(s.world, sized_op(s, base, off, v, width)),
        )
}

/// The code that stores the low bytes of a number.
pub open spec fn sized_line(p: Point, base: Value, off: usize, v: Value, width: u8) -> Seq<Inst> {
    if width == 8 {
        Seq::empty().push(Inst::Store { width, val: v, addr: base, off: off as u64 })
    } else {
        Seq::empty()
            .push(Inst::Ireduce(width, v))
            .push(
                Inst::Store { width, val: crate::ir::slot(p, 0), addr: base, off: off as u64 },
            )
    }
}

proof fn lemma_store_sized(
    m: Seq<FuncV>,
    q: FuncV,
    s: State,
    p: Point,
    to: Point,
    base: Value,
    off: usize,
    v: Value,
    width: u8,
    line: Seq<Inst>,
)
    requires
        width == 1 || width == 2 || width == 4 || width == 8,
        line == sized_line(p, base, off, v, width),
        crate::ir::laid(q, p, line),
        crate::ir::open_at(p),
        crate::ir::built(p.f, base),
        to.cur == p.cur,
        crate::ir::size_at(to) == crate::ir::size_at(p) + line.len(),
        ready_store(m, q, s, p, to, base, off, v),
    ensures
        crate::ir::comes(
            m,
            q,
            s,
            p.f,
            to,
            crate::ir::push_op(s.world, sized_op(s, base, off, v, width)),
        ),
{
    let x = number_of(s, v);
    let w = crate::ir::push_op(s.world, sized_op(s, base, off, v, width));
    let g = Line { m, q, p0: p.f, s0: s, o: p, l: line };
    g.begin(s);
    if width == 8 {
        let t = g.store(s, 0, Val::Int(0), w);
    } else {
        let y = x % (crate::arith::pow256(width as nat) as int);
        crate::arith::lemma_pow256_pos(width as nat);
        crate::arith::lemma_le_rem(x as nat, width as nat, width as nat);
        let a = g.ireduce(s, 0, Val::Int(y));
        let t = g.store(a, 1, Val::Int(0), w);
    }
}

/// Adds the code that stores the low bytes of a number at an offset from a
/// pointer.
pub fn store_sized(f: &mut FuncIr, base: Value, off: usize, v: Value, width: u8)
    requires
        width == 1 || width == 2 || width == 4 || width == 8,
        crate::ir::open_at(old(f).point()),
        crate::ir::size_at(old(f).point()) <= usize::MAX,
        crate::ir::built(old(f)@, base),
        crate::ir::built(old(f)@, v),
        crate::lower::sized(old(f)@, v, 8),
        off <= i32::MAX,
    ensures
        crate::tidy::adds(old(f).point(), final(f).point(), 2),
        crate::binder::advanced(old(f).point(), final(f).point()),
        stores_sized(old(f).point(), final(f).point(), base, off, v, width),
{
    let ghost p = f.point();
    proof {
        crate::ir::lemma_laid_none(p);
    }
    if width == 8 {
        f.emit(Inst::Store { width, val: v, addr: base, off: off as u64 });
    } else {
        let low: Value = f.emit(Inst::Ireduce(width, v));
        f.emit(Inst::Store { width, val: low, addr: base, off: off as u64 });
    }
    let ghost to = f.point();
    let ghost line = sized_line(p, base, off, v, width);
    proof {
        crate::ir::lemma_carried(p, to);
        assert(crate::ir::laid(to.f, p, line));
        assert forall|m: Seq<FuncV>, q: FuncV, s: State| #[trigger]
            ready_store(m, q, s, p, to, base, off, v) implies crate::ir::comes(
            m,
            q,
            s,
            p.f,
            to,
            crate::ir::push_op(s.world, sized_op(s, base, off, v, width)),
        ) by {
            crate::ir::lemma_has_all(to.f, q);
            lemma_store_sized(m, q, s, p, to, base, off, v, width, line);
        }
    }
}

// ---------------------------------------------------------------------------
// Truth values.
// ---------------------------------------------------------------------------

/// The code of a truth value, past white space.
pub open spec fn bool_line(p: Point, c: Value, dst: Value) -> Seq<Inst> {
    let byte = crate::ir::slot(p, 1);
    Seq::empty()
        .push(Inst::Load { width: 1, addr: c, off: 0 })
        .push(Inst::Uextend(crate::ir::slot(p, 0)))
        .push(Inst::TestImm(Cc::Equal, byte, LOWER_T as i64))
        .push(Inst::TestImm(Cc::Equal, byte, LOWER_F as i64))
        .push(Inst::Store { width: 1, val: crate::ir::slot(p, 2), addr: dst, off: 0 })
        .push(Inst::Iconst(5))
        .push(Inst::Iconst(4))
        .push(
            Inst::Select(crate::ir::slot(p, 3), crate::ir::slot(p, 5), crate::ir::slot(p, 6)),
        )
        .push(Inst::Iadd(c, crate::ir::slot(p, 7)))
}

proof fn lemma_bool(
    m: Seq<FuncV>,
    q: FuncV,
    s: State,
    p: Point,
    p1: Point,
    to: Point,
    dst: Value,
    cur: Value,
    x: Pctx,
    c: Value,
    line: Seq<Inst>,
)
    requires
        crate::cursor::skips_space(p, p1, cur, x.end, c),
        line == bool_line(p1, c, dst),
        crate::ir::laid(q, p1, line),
        crate::ir::open_at(p1),
        crate::ir::extends(p.f, p1.f),
        crate::ir::extends(p1.f, q),
        crate::ir::built(p.f, dst),
        crate::ir::built(p1.f, dst),
        crate::ir::built(p1.f, c),
        to.cur == p1.cur,
        crate::ir::size_at(to) == crate::ir::size_at(p1) + 9,
        ready_leaf(m, q, s, p, to, TyV::Bool, dst, cur, x),
    ensures
        read_to(
            m,
            q,
            s,
            p,
            to,
            crate::ir::slot(p1, 8),
            crate::cursor::data(s, x.end),
            leaf_ops(TyV::Bool, s, dst, cur, x),
            leaf_end(TyV::Bool, s, dst, cur, x),
        ),
{
    let d = crate::cursor::data(s, x.end);
    let (ops, e) = leaf_result(TyV::Bool, s, dst, cur, x)->0;
    assert(crate::cursor::ready_at(m, q, s, p, p1, cur, x.end));
    let at = crate::scan::space_end(d, crate::cursor::pos(s, cur));
    let a = crate::ir::computed(
        m,
        q,
        s,
        p.f,
        p1,
        c,
        crate::cursor::spot(d, at),
        s.world,
    );
    let g = Line { m, q, p0: p.f, s0: s, o: p1, l: line };
    let y = d[at];
    let v = Val::Int(y as int);
    let b0 = g.load(a, 0, v);
    let b1 = g.uextend(b0, 1, v);
    let b2 = g.test_imm(b1, 2, crate::ir::truth(y == LOWER_T));
    let b3 = g.test_imm(b2, 3, crate::ir::truth(y == LOWER_F));
    let w = crate::ir::push_op(s.world, ops[0]);
    let b4 = g.store(b3, 4, Val::Int(0), w);
    let b5 = g.iconst(b4, 5, Val::Int(5));
    let b6 = g.iconst(b5, 6, Val::Int(4));
    let len = if y == LOWER_F {
        5int
    } else {
        4int
    };
    let b7 = g.select(b6, 7, Val::Int(len));
    let t = g.iadd(b7, 8, crate::cursor::spot(d, e));
    assert(t.world.ops =~= s.world.ops + ops);
    assert(read_at(s, t, p, to, crate::ir::slot(p1, 8), d, ops, e));
}

/// Adds the code that reads a truth value.
#[verifier::spinoff_prover]
#[verifier::rlimit(40)]
pub fn parse_bool(f: &mut FuncIr, dst: Value, cur: Value, x: &Pctx) -> (r: Value)
    requires
        can_build(*old(f), dst, cur, *x),
    ensures
        crate::lower::sized(final(f)@, r, 8),
        crate::tidy::adds(old(f).point(), final(f).point(), 200),
        crate::binder::advanced(old(f).point(), final(f).point()),
        crate::ir::built(final(f)@, r),
        reads_leaf(TyV::Bool, old(f).point(), final(f).point(), dst, cur, *x, r),
{
    let ghost p = f.point();
    proof {
        crate::ir::lemma_laid_none(p);
    }
    let c: Value = ws(f, cur, x.end);
    let ghost p1 = f.point();
    proof {
        crate::ir::lemma_laid_none(p1);
    }
    let byte: Value = load_u8(f, c);
    let is_t: Value = f.emit(Inst::TestImm(Cc::Equal, byte, LOWER_T as i64));
    let is_f: Value = f.emit(Inst::TestImm(Cc::Equal, byte, LOWER_F as i64));
    f.emit(Inst::Store { width: 1, val: is_t, addr: dst, off: 0 });
    let five: Value = f.emit(Inst::Iconst(5));
    let four: Value = f.emit(Inst::Iconst(4));
    let adv: Value = f.emit(Inst::Select(is_f, five, four));
    let r: Value = f.emit(Inst::Iadd(c, adv));
    let ghost to = f.point();
    let ghost line = bool_line(p1, c, dst);
    proof {
        crate::ir::lemma_carried(p, to);
        assert(crate::ir::laid(to.f, p1, line));
        assert forall|m: Seq<FuncV>, q: FuncV, s: State| #[trigger]
            ready_leaf(m, q, s, p, to, TyV::Bool, dst, cur, *x) implies read_to(
            m,
            q,
            s,
            p,
            to,
            r,
            crate::cursor::data(s, x.end),
            leaf_ops(TyV::Bool, s, dst, cur, *x),
            leaf_end(TyV::Bool, s, dst, cur, *x),
        ) by {
            crate::ir::lemma_has_all(to.f, q);
            lemma_bool(m, q, s, p, p1, to, dst, cur, *x, c, line);
        }
    }
    r
}

// ---------------------------------------------------------------------------
// Integers.
// ---------------------------------------------------------------------------

/// The type of an integer.
pub open spec fn int_ty(signed: bool, n: u8) -> TyV {
    if signed {
        TyV::I(n)
    } else {
        TyV::U(n)
    }
}

proof fn lemma_int(
    m: Seq<FuncV>,
    q: FuncV,
    s: State,
    p: Point,
    p1: Point,
    to: Point,
    dst: Value,
    cur: Value,
    x: Pctx,
    signed: bool,
    n: u8,
    v: Value,
    c: Value,
)
    requires
        crate::digits::reads_int(p, p1, cur, x.end, signed, v, c),
        stores_sized(p1, to, dst, 0, v, crate::binder::store_width(n)),
        crate::ir::extends(p.f, p1.f),
        crate::ir::extends(p1.f, q),
        crate::ir::built(p.f, dst),
        crate::ir::built(p1.f, c),
        ready_leaf(m, q, s, p, to, int_ty(signed, n), dst, cur, x),
    ensures
        read_to(
            m,
            q,
            s,
            p,
            to,
            c,
            crate::cursor::data(s, x.end),
            leaf_ops(int_ty(signed, n), s, dst, cur, x),
            leaf_end(int_ty(signed, n), s, dst, cur, x),
        ),
{
    let d = crate::cursor::data(s, x.end);
    let at = crate::cursor::pos(s, cur);
    let (ops, e) = leaf_result(int_ty(signed, n), s, dst, cur, x)->0;
    assert(crate::digits::ready_int(m, q, s, p, p1, cur, x.end, signed));
    let a = crate::digits::int_got(m, q, s, p, p1, cur, x.end, signed, v, c);
    crate::scan::lemma_space_end(d, at);
    crate::scan::lemma_digits(d, crate::scan::space_end(d, at), 0);
    crate::scan::lemma_digits(d, crate::scan::space_end(d, at) + 1, 0);
    assert(ready_store(m, q, a, p1, to, dst, 0, v));
    let w = crate::ir::push_op(a.world, sized_op(a, dst, 0, v, crate::binder::store_width(n)));
    let t = crate::ir::come(m, q, a, p1.f, to, w);
    crate::ir::go_on(m, q, p.f, s, a, p1.f, t);
    assert(t.world.ops =~= s.world.ops + ops);
    assert(read_at(s, t, p, to, c, d, ops, e));
}

/// Adds the code that reads an integer.
pub fn parse_int(f: &mut FuncIr, signed: bool, n: u8, dst: Value, cur: Value, x: &Pctx) -> (r:
    Value)
    requires
        can_build(*old(f), dst, cur, *x),
    ensures
        crate::lower::sized(final(f)@, r, 8),
        crate::tidy::adds(old(f).point(), final(f).point(), 200),
        crate::binder::advanced(old(f).point(), final(f).point()),
        crate::ir::built(final(f)@, r),
        reads_leaf(int_ty(signed, n), old(f).point(), final(f).point(), dst, cur, *x, r),
{
    let ghost p = f.point();
    proof {
        crate::ir::lemma_laid_none(p);
    }
    let (v, c) = intval(f, cur, x.end, signed);
    let ghost p1 = f.point();
    assert(crate::ir::extends(p1.f, p1.f));
    let width: u8 = if n == 1 || n == 2 || n == 4 {
        n
    } else {
        8
    };
    store_sized(f, dst, 0, v, width);
    let ghost to = f.point();
    proof {
        crate::ir::lemma_carried(p, to);
        let ty = int_ty(signed, n);
        assert forall|m: Seq<FuncV>, q: FuncV, s: State| #[trigger]
            ready_leaf(m, q, s, p, to, ty, dst, cur, *x) implies read_to(
            m,
            q,
            s,
            p,
            to,
            c,
            crate::cursor::data(s, x.end),
            leaf_ops(ty, s, dst, cur, *x),
            leaf_end(ty, s, dst, cur, *x),
        ) by {
            crate::ir::lemma_has_all(to.f, q);
            lemma_int(m, q, s, p, p1, to, dst, cur, *x, signed, n, v, c);
        }
    }
    c
}

// ---------------------------------------------------------------------------
// Floating-point numbers.
// ---------------------------------------------------------------------------

/// The type of a floating-point number of four or eight bytes.
pub open spec fn float_ty(width: u8) -> TyV {
    if width == 4 {
        TyV::F32
    } else {
        TyV::F64
    }
}

/// The code of a floating-point number.
pub open spec fn float_line(p: Point, dst: Value, cur: Value, x: Pctx, width: u8) -> Seq<Inst> {
    let line = Seq::empty()
        .push(Inst::Call(Shim::F64v, Args::Three(cur, x.end, x.sc)))
        .push(Inst::Load { width: 8, addr: x.sc, off: 0 })
        .push(Inst::Bitcast(crate::ir::slot(p, 1)));
    if width == 4 {
        line.push(Inst::Fdemote(crate::ir::slot(p, 2))).push(
            Inst::Store { width, val: crate::ir::slot(p, 3), addr: dst, off: 0 },
        )
    } else {
        line.push(Inst::Store { width, val: crate::ir::slot(p, 2), addr: dst, off: 0 })
    }
}

proof fn lemma_float(
    m: Seq<FuncV>,
    q: FuncV,
    s: State,
    p: Point,
    to: Point,
    dst: Value,
    cur: Value,
    x: Pctx,
    width: u8,
    line: Seq<Inst>,
)
    requires
        width == 4 || width == 8,
        line == float_line(p, dst, cur, x, width),
        crate::ir::laid(q, p, line),
        crate::ir::open_at(p),
        crate::ir::built(p.f, dst),
        crate::ir::built(p.f, x.sc),
        to.cur == p.cur,
        crate::ir::size_at(to) == crate::ir::size_at(p) + line.len(),
        ready_leaf(m, q, s, p, to, float_ty(width), dst, cur, x),
    ensures
        read_to(
            m,
            q,
            s,
            p,
            to,
            crate::ir::slot(p, 0),
            crate::cursor::data(s, x.end),
            leaf_ops(float_ty(width), s, dst, cur, x),
            leaf_end(float_ty(width), s, dst, cur, x),
        ),
{
    let d = crate::cursor::data(s, x.end);
    let (ops, e) = leaf_result(float_ty(width), s, dst, cur, x)->0;
    let start = crate::scan::space_end(d, crate::cursor::pos(s, cur));
    let text = crate::text::ascii_text(d.subrange(start, e));
    let w = World { ops: s.world.ops, scratch: Some(text) };
    let g = Line { m, q, p0: p.f, s0: s, o: p, l: line };
    g.begin(s);
    let b0 = g.call_three(s, 0, crate::cursor::spot(d, e), w);
    let b1 = g.load_scratch(b0, 1, Val::Float(text, 8));
    let b2 = g.bitcast(b1, 2, Val::Float(text, 8));
    let done = crate::ir::push_op(w, ops[0]);
    let t = if width == 4 {
        let b3 = g.fdemote(b2, 3, Val::Float(text, 4));
        g.store(b3, 4, Val::Int(0), done)
    } else {
        g.store(b2, 3, Val::Int(0), done)
    };
    assert(t.world.ops =~= s.world.ops + ops);
    assert(read_at(s, t, p, to, crate::ir::slot(p, 0), d, ops, e));
}

/// Adds the code that reads a floating-point number of four or eight bytes.
pub fn parse_float(f: &mut FuncIr, width: u8, dst: Value, cur: Value, x: &Pctx) -> (r: Value)
    requires
        width == 4 || width == 8,
        can_build(*old(f), dst, cur, *x),
    ensures
        crate::lower::sized(final(f)@, r, 8),
        crate::tidy::adds(old(f).point(), final(f).point(), 200),
        crate::binder::advanced(old(f).point(), final(f).point()),
        crate::ir::built(final(f)@, r),
        reads_leaf(float_ty(width), old(f).point(), final(f).point(), dst, cur, *x, r),
{
    let ghost p = f.point();
    proof {
        crate::ir::lemma_laid_none(p);
    }
    let c: Value = f.emit(Inst::Call(Shim::F64v, Args::Three(cur, x.end, x.sc)));
    let bits: Value = f.emit(Inst::Load { width: 8, addr: x.sc, off: 0 });
    let num: Value = f.emit(Inst::Bitcast(bits));
    if width == 4 {
        let small: Value = f.emit(Inst::Fdemote(num));
        f.emit(Inst::Store { width, val: small, addr: dst, off: 0 });
    } else {
        f.emit(Inst::Store { width, val: num, addr: dst, off: 0 });
    }
    let ghost to = f.point();
    let ghost line = float_line(p, dst, cur, *x, width);
    proof {
        crate::ir::lemma_carried(p, to);
        assert(crate::ir::laid(to.f, p, line));
        let ty = float_ty(width);
        assert forall|m: Seq<FuncV>, q: FuncV, s: State| #[trigger]
            ready_leaf(m, q, s, p, to, ty, dst, cur, *x) implies read_to(
            m,
            q,
            s,
            p,
            to,
            c,
            crate::cursor::data(s, x.end),
            leaf_ops(ty, s, dst, cur, *x),
            leaf_end(ty, s, dst, cur, *x),
        ) by {
            crate::ir::lemma_has_all(to.f, q);
            lemma_float(m, q, s, p, to, dst, cur, *x, width, line);
        }
    }
    c
}

// ---------------------------------------------------------------------------
// Characters and strings.
// ---------------------------------------------------------------------------

/// The code of a character, once its string has been found.
pub open spec fn char_line(p: Point, start: Value, len: Value, dst: Value) -> Seq<Inst> {
    Seq::empty()
        .push(Inst::Call(Shim::CharAt, Args::Two(start, len)))
        .push(Inst::Ireduce(4, crate::ir::slot(p, 0)))
        .push(Inst::Store { width: 4, val: crate::ir::slot(p, 1), addr: dst, off: 0 })
}

/// A character fits in four bytes.
proof fn lemma_four_bytes(c: char)
    ensures
        (c as int) % (crate::arith::pow256(4) as int) == c as int,
        0 <= c as int,
{
    vstd::utf8::char_is_scalar(c);
    assert(crate::arith::pow256(4) > 0x10_ffff) by {
        reveal_with_fuel(crate::arith::pow256, 5);
    }
    assert((c as int) % (crate::arith::pow256(4) as int) == c as int) by (nonlinear_arith)
        requires
            crate::arith::pow256(4) > 0x10_ffff,
            0 <= c as int <= 0x10_ffff,
    ;
}

proof fn lemma_char(
    m: Seq<FuncV>,
    q: FuncV,
    s: State,
    p: Point,
    p1: Point,
    to: Point,
    dst: Value,
    cur: Value,
    x: Pctx,
    start: Value,
    len: Value,
    after: Value,
    line: Seq<Inst>,
)
    requires
        crate::span::spans(p, p1, cur, x.end, start, len, after),
        line == char_line(p1, start, len, dst),
        crate::ir::laid(q, p1, line),
        crate::ir::open_at(p1),
        crate::ir::extends(p.f, p1.f),
        crate::ir::extends(p1.f, q),
        crate::ir::built(p.f, dst),
        crate::ir::built(p1.f, dst),
        crate::ir::built(p1.f, start),
        crate::ir::built(p1.f, len),
        crate::ir::built(p1.f, after),
        to.cur == p1.cur,
        crate::ir::size_at(to) == crate::ir::size_at(p1) + 3,
        ready_leaf(m, q, s, p, to, TyV::Char, dst, cur, x),
    ensures
        read_to(
            m,
            q,
            s,
            p,
            to,
            after,
            crate::cursor::data(s, x.end),
            leaf_ops(TyV::Char, s, dst, cur, x),
            leaf_end(TyV::Char, s, dst, cur, x),
        ),
{
    let d = crate::cursor::data(s, x.end);
    let (ops, e) = leaf_result(TyV::Char, s, dst, cur, x)->0;
    let (first, quote) = crate::scan::span(d, crate::cursor::pos(s, cur));
    assert(crate::cursor::ready_at(m, q, s, p, p1, cur, x.end));
    let a = crate::span::found(m, q, s, p, p1, cur, x.end, start, len, after);
    let g = Line { m, q, p0: p.f, s0: s, o: p1, l: line };
    let c = crate::read::char_at(d, first, quote)->0;
    let v = Val::Int(c as int);
    let b0 = g.call_two(a, 0, v, a.world);
    lemma_four_bytes(c);
    let b1 = g.ireduce(b0, 1, v);
    let t = g.store(b1, 2, Val::Int(0), crate::ir::push_op(s.world, ops[0]));
    assert(t.world.ops =~= s.world.ops + ops);
    assert(read_at(s, t, p, to, after, d, ops, e));
}

/// Adds the code that reads a character: the first of a string.
pub fn parse_char(f: &mut FuncIr, dst: Value, cur: Value, x: &Pctx) -> (r: Value)
    requires
        can_build(*old(f), dst, cur, *x),
    ensures
        crate::lower::sized(final(f)@, r, 8),
        crate::tidy::adds(old(f).point(), final(f).point(), 200),
        crate::binder::advanced(old(f).point(), final(f).point()),
        crate::ir::built(final(f)@, r),
        reads_leaf(TyV::Char, old(f).point(), final(f).point(), dst, cur, *x, r),
{
    let ghost p = f.point();
    proof {
        crate::ir::lemma_laid_none(p);
    }
    let (start, len, after) = strspan(f, cur, x.end);
    let ghost p1 = f.point();
    proof {
        crate::ir::lemma_laid_none(p1);
    }
    let first: Value = f.emit(Inst::Call(Shim::CharAt, Args::Two(start, len)));
    let ch: Value = f.emit(Inst::Ireduce(4, first));
    f.emit(Inst::Store { width: 4, val: ch, addr: dst, off: 0 });
    let ghost to = f.point();
    let ghost line = char_line(p1, start, len, dst);
    proof {
        crate::ir::lemma_carried(p, to);
        assert(crate::ir::laid(to.f, p1, line));
        assert forall|m: Seq<FuncV>, q: FuncV, s: State| #[trigger]
            ready_leaf(m, q, s, p, to, TyV::Char, dst, cur, *x) implies read_to(
            m,
            q,
            s,
            p,
            to,
            after,
            crate::cursor::data(s, x.end),
            leaf_ops(TyV::Char, s, dst, cur, *x),
            leaf_end(TyV::Char, s, dst, cur, *x),
        ) by {
            crate::ir::lemma_has_all(to.f, q);
            lemma_char(m, q, s, p, p1, to, dst, cur, *x, start, len, after, line);
        }
    }
    after
}

/// What copying a span comes to.
pub proof fn lemma_dup_span(d: Seq<u8>, first: int, quote: int, w: World)
    requires
        crate::read::span_bytes(d, first, quote) is Some,
        d.len() <= i64::MAX,
        w.ops.len() <= usize::MAX,
    ensures
        ({
            let bytes = crate::read::span_bytes(d, first, quote)->0;
            let (ops, to) = crate::interp::copy_ops(bytes, w.ops.len());
            &&& bytes.len() == quote - first
            &&& crate::ir::dup_call(d, first, quote - first, w) matches Some((v, w2))
            &&& crate::binder::as_pointer(v) == Some(to)
            &&& w2 == crate::binder::written(w, ops)
        }),
{
    let bytes = crate::read::span_bytes(d, first, quote)->0;
    let (ops, to) = crate::interp::copy_ops(bytes, w.ops.len());
    let (v, w2) = crate::ir::dup_call(d, first, quote - first, w)->0;
    assert(w2.ops =~= w.ops + ops);
}

/// Finds a string and copies it.
proof fn lemma_dup_line(
    m: Seq<FuncV>,
    q: FuncV,
    s: State,
    p: Point,
    p1: Point,
    cur: Value,
    x: Pctx,
    start: Value,
    len: Value,
    after: Value,
    line: Seq<Inst>,
) -> (t: State)
    requires
        crate::span::spans(p, p1, cur, x.end, start, len, after),
        line == Seq::empty().push(Inst::Call(Shim::Dup, Args::Two(start, len))),
        crate::ir::laid(q, p1, line),
        crate::ir::open_at(p1),
        crate::ir::extends(p.f, p1.f),
        crate::ir::extends(p1.f, q),
        crate::ir::stands(s, p),
        crate::cursor::input(s, cur, x.end),
        crate::ir::built(p1.f, start),
        crate::ir::built(p1.f, len),
        crate::ir::built(p1.f, after),
        s.world.ops.len() <= usize::MAX,
        ({
            let d = crate::cursor::data(s, x.end);
            let (first, quote) = crate::scan::span(d, crate::cursor::pos(s, cur));
            crate::read::span_bytes(d, first, quote) is Some
        }),
    ensures
        ({
            let d = crate::cursor::data(s, x.end);
            let (first, quote) = crate::scan::span(d, crate::cursor::pos(s, cur));
            let bytes = crate::read::span_bytes(d, first, quote)->0;
            let (ops, to) = crate::interp::copy_ops(bytes, s.world.ops.len());
            &&& crate::ir::goes(m, q, s, t)
            &&& crate::ir::keeps(p.f, s, t)
            &&& t.block == p1.cur
            &&& t.at == crate::ir::size_at(p1) + 1
            &&& crate::ir::get(t.vals, crate::ir::slot(p1, 0)) matches Some(v)
            &&& crate::binder::as_pointer(v) == Some(to)
            &&& crate::ir::get(t.vals, len) == Some(Val::Int(bytes.len() as int))
            &&& crate::ir::get(t.vals, after) == Some(crate::cursor::spot(d, quote + 1))
            &&& t.world == crate::binder::written(s.world, ops)
        }),
{
    let d = crate::cursor::data(s, x.end);
    let (first, quote) = crate::scan::span(d, crate::cursor::pos(s, cur));
    assert(crate::cursor::ready_at(m, q, s, p, p1, cur, x.end));
    let a = crate::span::found(m, q, s, p, p1, cur, x.end, start, len, after);
    lemma_dup_span(d, first, quote, s.world);
    let (v, w) = crate::ir::dup_call(d, first, quote - first, s.world)->0;
    let g = Line { m, q, p0: p.f, s0: s, o: p1, l: line };
    g.call_two(a, 0, v, w)
}

proof fn lemma_str(
    m: Seq<FuncV>,
    q: FuncV,
    s: State,
    p: Point,
    p1: Point,
    p2: Point,
    to: Point,
    seq: SeqLayout,
    dst: Value,
    cur: Value,
    x: Pctx,
    start: Value,
    len: Value,
    after: Value,
    line: Seq<Inst>,
)
    requires
        crate::span::spans(p, p1, cur, x.end, start, len, after),
        line == Seq::empty().push(Inst::Call(Shim::Dup, Args::Two(start, len))),
        crate::ir::laid(q, p1, line),
        crate::ir::open_at(p1),
        crate::ir::extends(p.f, p1.f),
        crate::ir::extends(p.f, p2.f),
        crate::ir::extends(p1.f, q),
        crate::ir::built(p.f, dst),
        crate::ir::built(p1.f, start),
        crate::ir::built(p1.f, len),
        crate::ir::built(p1.f, after),
        crate::ir::built(p2.f, after),
        p2.cur == p1.cur,
        crate::ir::size_at(p2) == crate::ir::size_at(p1) + 1,
        crate::binder::writes_words(seq, p2, to, dst, crate::ir::slot(p1, 0), len),
        ready_leaf(m, q, s, p, to, TyV::Str(seq), dst, cur, x),
    ensures
        read_to(
            m,
            q,
            s,
            p,
            to,
            after,
            crate::cursor::data(s, x.end),
            leaf_ops(TyV::Str(seq), s, dst, cur, x),
            leaf_end(TyV::Str(seq), s, dst, cur, x),
        ),
{
    let d = crate::cursor::data(s, x.end);
    let (ops, e) = leaf_result(TyV::Str(seq), s, dst, cur, x)->0;
    let (first, quote) = crate::scan::span(d, crate::cursor::pos(s, cur));
    lemma_dup_span(d, first, quote, s.world);
    let a = lemma_dup_line(m, q, s, p, p1, cur, x, start, len, after, line);
    let buf = crate::ir::slot(p1, 0);
    assert(crate::ir::get(a.vals, dst) == crate::ir::get(s.vals, dst));
    assert(crate::binder::ready_words(m, q, a, p2, to, seq, dst, buf, len));
    let words = crate::binder::words_at(seq, a, dst, buf, len)->0->Ok_0;
    let t = crate::ir::come(m, q, a, p2.f, to, crate::binder::written(a.world, words));
    crate::ir::go_on(m, q, p.f, s, a, p2.f, t);
    assert(t.world.ops =~= s.world.ops + ops);
    assert(read_at(s, t, p, to, after, d, ops, e));
}

/// Adds the code that reads a `String`.
pub fn parse_str(f: &mut FuncIr, seq: &SeqLayout, dst: Value, cur: Value, x: &Pctx) -> (r: Value)
    requires
        crate::binder::near(*seq),
        can_build(*old(f), dst, cur, *x),
    ensures
        crate::lower::sized(final(f)@, r, 8),
        crate::tidy::adds(old(f).point(), final(f).point(), 200),
        crate::binder::advanced(old(f).point(), final(f).point()),
        crate::ir::built(final(f)@, r),
        reads_leaf(TyV::Str(*seq), old(f).point(), final(f).point(), dst, cur, *x, r),
{
    let ghost p = f.point();
    proof {
        crate::ir::lemma_laid_none(p);
    }
    let (start, len, after) = strspan(f, cur, x.end);
    let ghost p1 = f.point();
    proof {
        crate::ir::lemma_laid_none(p1);
    }
    let buf: Value = f.emit(Inst::Call(Shim::Dup, Args::Two(start, len)));
    let ghost p2 = f.point();
    let ghost line = Seq::<Inst>::empty().push(Inst::Call(Shim::Dup, Args::Two(start, len)));
    store_seq(f, seq, dst, buf, len);
    let ghost to = f.point();
    proof {
        crate::ir::lemma_carried(p, to);
        assert(crate::ir::laid(to.f, p1, line));
        let ty = TyV::Str(*seq);
        assert forall|m: Seq<FuncV>, q: FuncV, s: State| #[trigger]
            ready_leaf(m, q, s, p, to, ty, dst, cur, *x) implies read_to(
            m,
            q,
            s,
            p,
            to,
            after,
            crate::cursor::data(s, x.end),
            leaf_ops(ty, s, dst, cur, *x),
            leaf_end(ty, s, dst, cur, *x),
        ) by {
            crate::ir::lemma_has_all(to.f, q);
            lemma_str(
                m,
                q,
                s,
                p,
                p1,
                p2,
                to,
                *seq,
                dst,
                cur,
                *x,
                start,
                len,
                after,
                line,
            );
        }
    }
    after
}

proof fn lemma_str_ref(
    m: Seq<FuncV>,
    q: FuncV,
    s: State,
    p: Point,
    p1: Point,
    p2: Point,
    p3: Point,
    to: Point,
    ptr_off: usize,
    len_off: usize,
    dst: Value,
    cur: Value,
    x: Pctx,
    start: Value,
    len: Value,
    after: Value,
    line: Seq<Inst>,
)
    requires
        crate::span::spans(p, p1, cur, x.end, start, len, after),
        line == Seq::empty().push(Inst::Call(Shim::Dup, Args::Two(start, len))),
        crate::ir::laid(q, p1, line),
        crate::ir::open_at(p1),
        crate::ir::extends(p.f, p1.f),
        crate::ir::extends(p.f, p2.f),
        crate::ir::extends(p.f, p3.f),
        crate::ir::extends(p1.f, q),
        crate::ir::extends(p3.f, q),
        crate::ir::built(p.f, dst),
        crate::ir::built(p1.f, start),
        crate::ir::built(p1.f, len),
        crate::ir::built(p1.f, after),
        crate::ir::built(p2.f, after),
        crate::ir::built(p2.f, len),
        crate::ir::built(p3.f, after),
        p2.cur == p1.cur,
        crate::ir::size_at(p2) == crate::ir::size_at(p1) + 1,
        crate::binder::stores(p2, p3, dst, ptr_off, crate::ir::slot(p1, 0)),
        crate::binder::stores(p3, to, dst, len_off, len),
        ready_leaf(m, q, s, p, to, TyV::StrRef { ptr_off, len_off }, dst, cur, x),
    ensures
        read_to(
            m,
            q,
            s,
            p,
            to,
            after,
            crate::cursor::data(s, x.end),
            leaf_ops(TyV::StrRef { ptr_off, len_off }, s, dst, cur, x),
            leaf_end(TyV::StrRef { ptr_off, len_off }, s, dst, cur, x),
        ),
{
    let d = crate::cursor::data(s, x.end);
    let (ops, e) = leaf_result(TyV::StrRef { ptr_off, len_off }, s, dst, cur, x)->0;
    let (first, quote) = crate::scan::span(d, crate::cursor::pos(s, cur));
    lemma_dup_span(d, first, quote, s.world);
    let a = lemma_dup_line(m, q, s, p, p1, cur, x, start, len, after, line);
    let buf = crate::ir::slot(p1, 0);
    let block = block_of(s, dst);
    let o = off_of(s, dst) as u64;
    assert(crate::ir::get(a.vals, dst) == crate::ir::get(s.vals, dst));
    let b = crate::binder::then_store(m, q, p.f, s, p2, p3, dst, ptr_off, buf, a, block, o);
    assert(crate::ir::get(b.vals, dst) == crate::ir::get(s.vals, dst));
    assert(crate::ir::get(b.vals, len) == crate::ir::get(a.vals, len));
    let t = crate::binder::then_store(m, q, p.f, s, p3, to, dst, len_off, len, b, block, o);
    assert(crate::ir::get(t.vals, after) == crate::ir::get(b.vals, after));
    assert(t.world.ops =~= s.world.ops + ops);
    assert(read_at(s, t, p, to, after, d, ops, e));
}

/// Adds the code that reads a `&str`.
pub fn parse_str_ref(
    f: &mut FuncIr,
    ptr_off: usize,
    len_off: usize,
    dst: Value,
    cur: Value,
    x: &Pctx,
) -> (r: Value)
    requires
        ptr_off <= i32::MAX,
        len_off <= i32::MAX,
        can_build(*old(f), dst, cur, *x),
    ensures
        crate::lower::sized(final(f)@, r, 8),
        crate::tidy::adds(old(f).point(), final(f).point(), 200),
        crate::binder::advanced(old(f).point(), final(f).point()),
        crate::ir::built(final(f)@, r),
        reads_leaf(
            (TyV::StrRef { ptr_off, len_off }),
            old(f).point(),
            final(f).point(),
            dst,
            cur,
            *x,
            r,
        ),
{
    let ghost p = f.point();
    proof {
        crate::ir::lemma_laid_none(p);
    }
    let (start, len, after) = strspan(f, cur, x.end);
    let ghost p1 = f.point();
    proof {
        crate::ir::lemma_laid_none(p1);
    }
    let buf: Value = f.emit(Inst::Call(Shim::Dup, Args::Two(start, len)));
    let ghost p2 = f.point();
    let ghost line = Seq::<Inst>::empty().push(Inst::Call(Shim::Dup, Args::Two(start, len)));
    store_at(f, dst, ptr_off, buf);
    let ghost p3 = f.point();
    assert(crate::ir::extends(p3.f, p3.f));
    store_at(f, dst, len_off, len);
    let ghost to = f.point();
    proof {
        crate::ir::lemma_carried(p, to);
        assert(crate::ir::laid(to.f, p1, line));
        let ty = TyV::StrRef { ptr_off, len_off };
        assert forall|m: Seq<FuncV>, q: FuncV, s: State| #[trigger]
            ready_leaf(m, q, s, p, to, ty, dst, cur, *x) implies read_to(
            m,
            q,
            s,
            p,
            to,
            after,
            crate::cursor::data(s, x.end),
            leaf_ops(ty, s, dst, cur, *x),
            leaf_end(ty, s, dst, cur, *x),
        ) by {
            crate::ir::lemma_has_all(to.f, q);
            lemma_str_ref(
                m,
                q,
                s,
                p,
                p1,
                p2,
                p3,
                to,
                ptr_off,
                len_off,
                dst,
                cur,
                *x,
                start,
                len,
                after,
                line,
            );
        }
    }
    after
}

// ---------------------------------------------------------------------------
// Nothing.
// ---------------------------------------------------------------------------

/// Adds the code that passes over a value.
pub fn parse_unit(f: &mut FuncIr, dst: Value, cur: Value, x: &Pctx) -> (r: Value)
    requires
        can_build(*old(f), dst, cur, *x),
    ensures
        crate::lower::sized(final(f)@, r, 8),
        crate::tidy::adds(old(f).point(), final(f).point(), 200),
        crate::binder::advanced(old(f).point(), final(f).point()),
        crate::ir::built(final(f)@, r),
        reads_leaf(TyV::Unit, old(f).point(), final(f).point(), dst, cur, *x, r),
{
    let ghost p = f.point();
    proof {
        crate::ir::lemma_laid_none(p);
    }
    let r: Value = f.emit(Inst::Call(Shim::Skip, Args::Two(cur, x.end)));
    let ghost to = f.point();
    let ghost line = Seq::<Inst>::empty().push(Inst::Call(Shim::Skip, Args::Two(cur, x.end)));
    proof {
        crate::ir::lemma_carried(p, to);
        assert(crate::ir::laid(to.f, p, line));
        assert forall|m: Seq<FuncV>, q: FuncV, s: State| #[trigger]
            ready_leaf(m, q, s, p, to, TyV::Unit, dst, cur, *x) implies read_to(
            m,
            q,
            s,
            p,
            to,
            r,
            crate::cursor::data(s, x.end),
            leaf_ops(TyV::Unit, s, dst, cur, *x),
            leaf_end(TyV::Unit, s, dst, cur, *x),
        ) by {
            crate::ir::lemma_has_all(to.f, q);
            let d = crate::cursor::data(s, x.end);
            let (ops, e) = leaf_result(TyV::Unit, s, dst, cur, *x)->0;
            let g = Line { m, q, p0: p.f, s0: s, o: p, l: line };
            g.begin(s);
            let t = g.call_two(s, 0, crate::cursor::spot(d, e), s.world);
            assert(t.world.ops =~= s.world.ops + ops);
            assert(read_at(s, t, p, to, r, d, ops, e));
        }
    }
    r
}

} // verus!
