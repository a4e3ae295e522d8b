//! Carrying out a line of instructions, one by one: for each kind of instruction,
//! what it takes and what it leads to.
use crate::interp::{Block, OpV};
use crate::ir::{Args, FuncV, Inst, Point, State, Val, Value, World};
use vstd::prelude::*;

verus! {

/// A line of instructions that a function `q` has at a point, and what it is
/// carried out from: a state, and what had been built when that was reached.
pub struct Line {
    pub m: Seq<FuncV>,
    pub q: FuncV,
    pub p0: FuncV,
    pub s0: State,
    pub o: Point,
    pub l: Seq<Inst>,
}

impl Line {
    /// Whether the state is at the `j`th instruction.
    pub open spec fn at(self, a: State, j: int) -> bool {
        &&& crate::ir::laid(self.q, self.o, self.l)
        &&& 0 <= self.o.cur < self.o.f.blocks.len()
        &&& crate::ir::extends(self.p0, self.o.f)
        &&& 0 <= j <= self.l.len()
        &&& crate::ir::goes(self.m, self.q, self.s0, a)
        &&& crate::ir::keeps(self.p0, self.s0, a)
        &&& a.block == self.o.cur
        &&& a.at == crate::ir::size_at(self.o) + j
    }

    /// Whether the second state is the one after the `j`th instruction, which
    /// gives a value and leaves a world.
    pub open spec fn leads(self, a: State, j: int, v: Val, w: World, t: State) -> bool {
        &&& self.at(t, j + 1)
        &&& crate::ir::keeps(self.o.f, a, t)
        &&& t.vals == a.vals.insert(crate::ir::slot(self.o, j), v)
        &&& crate::ir::get(t.vals, crate::ir::slot(self.o, j)) == Some(v)
        &&& forall|i: int|
            0 <= i < j ==> crate::ir::get(t.vals, #[trigger] crate::ir::slot(self.o, i))
                == crate::ir::get(a.vals, crate::ir::slot(self.o, i))
        &&& t.world == w
    }

    /// What a value is.
    pub open spec fn val(self, a: State, v: Value) -> Option<Val> {
        crate::ir::get(a.vals, v)
    }

    /// Begins at the first instruction.
    pub proof fn begin(self, a: State)
        requires
            crate::ir::laid(self.q, self.o, self.l),
            0 <= self.o.cur < self.o.f.blocks.len(),
            self.o.f == self.p0,
            a == self.s0,
            crate::ir::stands(a, self.o),
        ensures
            self.at(a, 0),
    {
        crate::ir::lemma_goes_refl(self.m, self.q, a);
    }

    /// Carries out one instruction.
    pub proof fn step(self, a: State, j: int, v: Val, w: World) -> (t: State)
        requires
            self.at(a, j),
            j < self.l.len(),
            crate::ir::exec(self.l[j], a.vals, a.world, self.q.keys) == Some((v, w)),
        ensures
            self.leads(a, j, v, w, t),
    {
        reveal(crate::ir::laid);
        let o = self.o;
        assert(self.q.blocks[o.cur].insts[crate::ir::size_at(o) + j] == self.l[j]);
        let t = crate::ir::step(self.q, a)->0;
        assert(crate::ir::exec(self.l[j], a.vals, a.world, self.q.keys) is Some);
        assert(crate::ir::step(self.q, a) is Some);
        crate::ir::lemma_goes_step(self.m, self.q, a);
        crate::ir::lemma_goes_trans(self.m, self.q, self.s0, a, t);
        assert forall|x: Value| crate::ir::built(o.f, x) implies #[trigger] crate::ir::get(
            t.vals,
            x,
        ) == crate::ir::get(a.vals, x) by {
            assert(x != crate::ir::slot(o, j));
        }
        crate::ir::lemma_keeps_trans(self.p0, o.f, self.s0, a, t);
        t
    }

    /// A constant.
    pub proof fn iconst(self, a: State, j: int, v: Val) -> (t: State)
        requires
            self.at(a, j),
            j < self.l.len(),
            ({
                &&& self.l[j] matches Inst::Iconst(x)
                &&& v == Val::Int(crate::ir::m64(x as int))
            }),
        ensures
            self.leads(a, j, v, a.world, t),
    {
        reveal(crate::ir::exec);
        self.step(a, j, v, a.world)
    }

    /// The truth value false.
    pub proof fn zero(self, a: State, j: int, v: Val) -> (t: State)
        requires
            self.at(a, j),
            j < self.l.len(),
            ({
                &&& self.l[j] == Inst::False
                &&& v == Val::Int(0)
            }),
        ensures
            self.leads(a, j, v, a.world, t),
    {
        reveal(crate::ir::exec);
        self.step(a, j, v, a.world)
    }

    /// The scratch space.
    pub proof fn scratch(self, a: State, j: int, v: Val) -> (t: State)
        requires
            self.at(a, j),
            j < self.l.len(),
            ({
                &&& self.l[j] == Inst::Scratch
                &&& v == Val::Ptr(crate::ir::Region::Scratch, 0)
            }),
        ensures
            self.leads(a, j, v, a.world, t),
    {
        reveal(crate::ir::exec);
        self.step(a, j, v, a.world)
    }

    /// A key.
    pub proof fn key(self, a: State, j: int, v: Val) -> (t: State)
        requires
            self.at(a, j),
            j < self.l.len(),
            ({
                &&& self.l[j] matches Inst::Key(k)
                &&& k < self.q.keys.len()
                &&& v == Val::Ptr(crate::ir::Region::Data(vstd::utf8::encode_utf8(self.q.keys[k as int])), 0)
            }),
        ensures
            self.leads(a, j, v, a.world, t),
    {
        reveal(crate::ir::exec);
        self.step(a, j, v, a.world)
    }

    /// A sum.
    pub proof fn iadd(self, a: State, j: int, v: Val) -> (t: State)
        requires
            self.at(a, j),
            j < self.l.len(),
            ({
                &&& self.l[j] matches Inst::Iadd(x, y)
                &&& self.val(a, x) matches Some(vx)
                &&& self.val(a, y) matches Some(vy)
                &&& crate::ir::add_vals(vx, vy) == Some(v)
            }),
        ensures
            self.leads(a, j, v, a.world, t),
    {
        reveal(crate::ir::exec);
        self.step(a, j, v, a.world)
    }

    /// A difference.
    pub proof fn isub(self, a: State, j: int, v: Val) -> (t: State)
        requires
            self.at(a, j),
            j < self.l.len(),
            ({
                &&& self.l[j] matches Inst::Isub(x, y)
                &&& self.val(a, x) matches Some(vx)
                &&& self.val(a, y) matches Some(vy)
                &&& crate::ir::sub_vals(vx, vy) == Some(v)
            }),
        ensures
            self.leads(a, j, v, a.world, t),
    {
        reveal(crate::ir::exec);
        self.step(a, j, v, a.world)
    }

    /// A product.
    pub proof fn imul(self, a: State, j: int, v: Val) -> (t: State)
        requires
            self.at(a, j),
            j < self.l.len(),
            ({
                &&& self.l[j] matches Inst::Imul(x, y)
                &&& self.val(a, x) matches Some(vx)
                &&& self.val(a, y) matches Some(vy)
                &&& vx is Int
                &&& vy is Int
                &&& v == Val::Int(crate::ir::m64(vx->Int_0 * vy->Int_0))
            }),
        ensures
            self.leads(a, j, v, a.world, t),
    {
        reveal(crate::ir::exec);
        self.step(a, j, v, a.world)
    }

    /// One or the other.
    pub proof fn bor(self, a: State, j: int, v: Val) -> (t: State)
        requires
            self.at(a, j),
            j < self.l.len(),
            ({
                &&& self.l[j] matches Inst::Bor(x, y)
                &&& self.val(a, x) matches Some(vx)
                &&& self.val(a, y) matches Some(vy)
                &&& vx == crate::ir::truth(vx->Int_0 == 1)
                &&& vy == crate::ir::truth(vy->Int_0 == 1)
                &&& v == crate::ir::truth(vx->Int_0 == 1 || vy->Int_0 == 1)
            }),
        ensures
            self.leads(a, j, v, a.world, t),
    {
        reveal(crate::ir::exec);
        self.step(a, j, v, a.world)
    }

    /// Both.
    pub proof fn band(self, a: State, j: int, v: Val) -> (t: State)
        requires
            self.at(a, j),
            j < self.l.len(),
            ({
                &&& self.l[j] matches Inst::Band(x, y)
                &&& self.val(a, x) matches Some(vx)
                &&& self.val(a, y) matches Some(vy)
                &&& vx == crate::ir::truth(vx->Int_0 == 1)
                &&& vy == crate::ir::truth(vy->Int_0 == 1)
                &&& v == crate::ir::truth(vx->Int_0 == 1 && vy->Int_0 == 1)
            }),
        ensures
            self.leads(a, j, v, a.world, t),
    {
        reveal(crate::ir::exec);
        self.step(a, j, v, a.world)
    }

    /// A sum with a constant.
    pub proof fn iadd_imm(self, a: State, j: int, v: Val) -> (t: State)
        requires
            self.at(a, j),
            j < self.l.len(),
            ({
                &&& self.l[j] matches Inst::IaddImm(x, n)
                &&& self.val(a, x) matches Some(vx)
                &&& crate::ir::add_vals(vx, Val::Int(crate::ir::m64(n as int))) == Some(v)
            }),
        ensures
            self.leads(a, j, v, a.world, t),
    {
        reveal(crate::ir::exec);
        self.step(a, j, v, a.world)
    }

    /// A product with a constant.
    pub proof fn imul_imm(self, a: State, j: int, v: Val) -> (t: State)
        requires
            self.at(a, j),
            j < self.l.len(),
            ({
                &&& self.l[j] matches Inst::ImulImm(x, n)
                &&& self.val(a, x) matches Some(vx)
                &&& vx is Int
                &&& v == Val::Int(crate::ir::m64(vx->Int_0 * (n as int)))
            }),
        ensures
            self.leads(a, j, v, a.world, t),
    {
        reveal(crate::ir::exec);
        self.step(a, j, v, a.world)
    }

    /// A negation.
    pub proof fn ineg(self, a: State, j: int, v: Val) -> (t: State)
        requires
            self.at(a, j),
            j < self.l.len(),
            ({
                &&& self.l[j] matches Inst::Ineg(x)
                &&& self.val(a, x) matches Some(vx)
                &&& vx is Int
                &&& v == Val::Int(crate::ir::m64(-vx->Int_0))
            }),
        ensures
            self.leads(a, j, v, a.world, t),
    {
        reveal(crate::ir::exec);
        self.step(a, j, v, a.world)
    }

    /// A comparison.
    pub proof fn test(self, a: State, j: int, v: Val) -> (t: State)
        requires
            self.at(a, j),
            j < self.l.len(),
            ({
                &&& self.l[j] matches Inst::Test(cc, x, y)
                &&& self.val(a, x) matches Some(vx)
                &&& self.val(a, y) matches Some(vy)
                &&& crate::ir::test_vals(cc, vx, vy) == Some(v)
            }),
        ensures
            self.leads(a, j, v, a.world, t),
    {
        reveal(crate::ir::exec);
        self.step(a, j, v, a.world)
    }

    /// A comparison with a constant.
    pub proof fn test_imm(self, a: State, j: int, v: Val) -> (t: State)
        requires
            self.at(a, j),
            j < self.l.len(),
            ({
                &&& self.l[j] matches Inst::TestImm(cc, x, n)
                &&& self.val(a, x) matches Some(vx)
                &&& vx is Int
                &&& v == crate::ir::truth(crate::ir::compare(cc, vx->Int_0, crate::ir::m64(n as int)))
            }),
        ensures
            self.leads(a, j, v, a.world, t),
    {
        reveal(crate::ir::exec);
        self.step(a, j, v, a.world)
    }

    /// A choice.
    pub proof fn select(self, a: State, j: int, v: Val) -> (t: State)
        requires
            self.at(a, j),
            j < self.l.len(),
            ({
                &&& self.l[j] matches Inst::Select(x, y, z)
                &&& self.val(a, x) matches Some(vx)
                &&& self.val(a, y) matches Some(vy)
                &&& self.val(a, z) matches Some(vz)
                &&& vx is Int
                &&& v == (if vx->Int_0 != 0 { vy } else { vz })
            }),
        ensures
            self.leads(a, j, v, a.world, t),
    {
        reveal(crate::ir::exec);
        self.step(a, j, v, a.world)
    }

    /// A byte.
    pub proof fn uextend(self, a: State, j: int, v: Val) -> (t: State)
        requires
            self.at(a, j),
            j < self.l.len(),
            ({
                &&& self.l[j] matches Inst::Uextend(x)
                &&& self.val(a, x) matches Some(vx)
                &&& vx is Int
                &&& 0 <= vx->Int_0 < 256
                &&& v == vx
            }),
        ensures
            self.leads(a, j, v, a.world, t),
    {
        reveal(crate::ir::exec);
        self.step(a, j, v, a.world)
    }

    /// The low bytes.
    pub proof fn ireduce(self, a: State, j: int, v: Val) -> (t: State)
        requires
            self.at(a, j),
            j < self.l.len(),
            ({
                &&& self.l[j] matches Inst::Ireduce(n, x)
                &&& self.val(a, x) matches Some(vx)
                &&& vx is Int
                &&& v == Val::Int(vx->Int_0 % (crate::arith::pow256(n as nat) as int))
            }),
        ensures
            self.leads(a, j, v, a.world, t),
    {
        reveal(crate::ir::exec);
        self.step(a, j, v, a.world)
    }

    /// A byte that is read.
    pub proof fn load(self, a: State, j: int, v: Val) -> (t: State)
        requires
            self.at(a, j),
            j < self.l.len(),
            ({
                &&& self.l[j] matches Inst::Load { width, addr, off }
                &&& self.val(a, addr) matches Some(vaddr)
                &&& width == 1
                &&& vaddr matches Val::Ptr(crate::ir::Region::Data(d), o)
                &&& 0 <= o + off < d.len()
                &&& v == Val::Int(d[o + off] as int)
            }),
        ensures
            self.leads(a, j, v, a.world, t),
    {
        reveal(crate::ir::exec);
        self.step(a, j, v, a.world)
    }

    /// The number in the scratch space.
    pub proof fn load_scratch(self, a: State, j: int, v: Val) -> (t: State)
        requires
            self.at(a, j),
            j < self.l.len(),
            ({
                &&& self.l[j] matches Inst::Load { width, addr, off }
                &&& self.val(a, addr) matches Some(vaddr)
                &&& width == 8
                &&& off == 0
                &&& vaddr == Val::Ptr(crate::ir::Region::Scratch, 0)
                &&& a.world.scratch matches Some(text)
                &&& v == Val::Float(text, 8)
            }),
        ensures
            self.leads(a, j, v, a.world, t),
    {
        reveal(crate::ir::exec);
        self.step(a, j, v, a.world)
    }

    /// A number, taken as one.
    pub proof fn bitcast(self, a: State, j: int, v: Val) -> (t: State)
        requires
            self.at(a, j),
            j < self.l.len(),
            ({
                &&& self.l[j] matches Inst::Bitcast(x)
                &&& self.val(a, x) matches Some(vx)
                &&& vx is Float
                &&& v == vx
            }),
        ensures
            self.leads(a, j, v, a.world, t),
    {
        reveal(crate::ir::exec);
        self.step(a, j, v, a.world)
    }

    /// A number, in four bytes.
    pub proof fn fdemote(self, a: State, j: int, v: Val) -> (t: State)
        requires
            self.at(a, j),
            j < self.l.len(),
            ({
                &&& self.l[j] matches Inst::Fdemote(x)
                &&& self.val(a, x) matches Some(vx)
                &&& vx matches Val::Float(text, n)
                &&& n == 8
                &&& v == Val::Float(text, 4)
            }),
        ensures
            self.leads(a, j, v, a.world, t),
    {
        reveal(crate::ir::exec);
        self.step(a, j, v, a.world)
    }

    /// Bytes that are written.
    pub proof fn store(self, a: State, j: int, v: Val, w: World) -> (t: State)
        requires
            self.at(a, j),
            j < self.l.len(),
            ({
                &&& self.l[j] matches Inst::Store { width, val, addr, off }
                &&& self.val(a, val) matches Some(vval)
                &&& self.val(a, addr) matches Some(vaddr)
                &&& vaddr matches Val::Ptr(crate::ir::Region::Out(block), o)
                &&& crate::ir::store_op(width, vval, block, o + off) matches Some(op)
                &&& w == crate::ir::push_op(a.world, op)
                &&& v == Val::Int(0)
            }),
        ensures
            self.leads(a, j, v, w, t),
    {
        reveal(crate::ir::exec);
        self.step(a, j, v, w)
    }

    /// An empty map.
    pub proof fn map_new(self, a: State, j: int, v: Val, w: World) -> (t: State)
        requires
            self.at(a, j),
            j < self.l.len(),
            ({
                &&& self.l[j] matches Inst::MapNew { at, dst }
                &&& self.val(a, at) matches Some(vat)
                &&& self.val(a, dst) matches Some(vdst)
                &&& vat matches Val::Int(x)
                &&& vdst matches Val::Ptr(crate::ir::Region::Out(block), o)
                &&& 0 <= x <= u64::MAX
                &&& 0 <= o <= u64::MAX
                &&& w == crate::ir::push_op(
                    a.world,
                    OpV::MapNew { block, off: o as u64, at: x as u64 },
                )
                &&& v == Val::Int(0)
            }),
        ensures
            self.leads(a, j, v, w, t),
    {
        reveal(crate::ir::exec);
        self.step(a, j, v, w)
    }

    /// A key and a value that are moved into a map.
    pub proof fn map_insert(self, a: State, j: int, v: Val, w: World) -> (t: State)
        requires
            self.at(a, j),
            j < self.l.len(),
            ({
                &&& self.l[j] matches Inst::MapInsert { at, dst, key, val }
                &&& self.val(a, at) matches Some(vat)
                &&& self.val(a, dst) matches Some(vdst)
                &&& self.val(a, key) matches Some(vkey)
                &&& self.val(a, val) matches Some(vval)
                &&& vat matches Val::Int(x)
                &&& vdst matches Val::Ptr(crate::ir::Region::Out(block), o)
                &&& vkey matches Val::Ptr(crate::ir::Region::Out(Block::Heap(k)), ko)
                &&& vval matches Val::Ptr(crate::ir::Region::Out(Block::Heap(y)), yo)
                &&& 0 <= x <= u64::MAX
                &&& 0 <= o <= u64::MAX
                &&& ko == 0
                &&& yo == 0
                &&& w == crate::ir::push_op(
                    a.world,
                    OpV::MapInsert { block, off: o as u64, key: k, val: y, at: x as u64 },
                )
                &&& v == Val::Int(0)
            }),
        ensures
            self.leads(a, j, v, w, t),
    {
        reveal(crate::ir::exec);
        self.step(a, j, v, w)
    }

    /// A call with one argument.
    pub proof fn call_one(self, a: State, j: int, v: Val, w: World) -> (t: State)
        requires
            self.at(a, j),
            j < self.l.len(),
            ({
                &&& self.l[j] matches Inst::Call(shim, Args::One(x))
                &&& self.val(a, x) matches Some(vx)
                &&& crate::ir::call_one(shim, vx, a.world) == Some((v, w))
            }),
        ensures
            self.leads(a, j, v, w, t),
    {
        reveal(crate::ir::exec);
        self.step(a, j, v, w)
    }

    /// A call with two arguments.
    pub proof fn call_two(self, a: State, j: int, v: Val, w: World) -> (t: State)
        requires
            self.at(a, j),
            j < self.l.len(),
            ({
                &&& self.l[j] matches Inst::Call(shim, Args::Two(x, y))
                &&& self.val(a, x) matches Some(vx)
                &&& self.val(a, y) matches Some(vy)
                &&& crate::ir::call_two(shim, vx, vy, a.world) == Some((v, w))
            }),
        ensures
            self.leads(a, j, v, w, t),
    {
        reveal(crate::ir::exec);
        self.step(a, j, v, w)
    }

    /// A call with three arguments.
    pub proof fn call_three(self, a: State, j: int, v: Val, w: World) -> (t: State)
        requires
            self.at(a, j),
            j < self.l.len(),
            ({
                &&& self.l[j] matches Inst::Call(shim, Args::Three(x, y, z))
                &&& self.val(a, x) matches Some(vx)
                &&& self.val(a, y) matches Some(vy)
                &&& self.val(a, z) matches Some(vz)
                &&& crate::ir::call_three(shim, vx, vy, vz, a.world) == Some((v, w))
            }),
        ensures
            self.leads(a, j, v, w, t),
    {
        reveal(crate::ir::exec);
        self.step(a, j, v, w)
    }

    /// A call of a compiled function, which returns a value and leaves a world.
    pub proof fn call_fn(self, a: State, j: int, args: Seq<Val>, n: nat, v: Val, w: World) -> (t:
        State)
        requires
            self.at(a, j),
            j < self.l.len(),
            ({
                &&& self.l[j] matches Inst::CallFn { func, dst, cur, end, sc }
                &&& func < self.m.len()
                &&& self.m[func as int].blocks.len() > 0
                &&& self.m[func as int].blocks[0].params == 4
                &&& self.val(a, dst) matches Some(v0)
                &&& self.val(a, cur) matches Some(v1)
                &&& self.val(a, end) matches Some(v2)
                &&& self.val(a, sc) matches Some(v3)
                &&& args == seq![v0, v1, v2, v3]
                &&& crate::ir::run(
                    self.m,
                    self.m[func as int],
                    crate::ir::entry(args, a.world),
                    n,
                ) == Some((v, w))
            }),
        ensures
            self.leads(a, j, v, w, t),
    {
        reveal(crate::ir::laid);
        let o = self.o;
        assert(self.q.blocks[o.cur].insts[crate::ir::size_at(o) + j] == self.l[j]);
        let t = crate::ir::resumed(a, v, w);
        crate::ir::lemma_goes_call(self.m, self.q, a, n);
        crate::ir::lemma_goes_trans(self.m, self.q, self.s0, a, t);
        assert forall|x: Value| crate::ir::built(o.f, x) implies #[trigger] crate::ir::get(
            t.vals,
            x,
        ) == crate::ir::get(a.vals, x) by {
            assert(x != crate::ir::slot(o, j));
        }
        crate::ir::lemma_keeps_trans(self.p0, o.f, self.s0, a, t);
        t
    }
}

} // verus!
