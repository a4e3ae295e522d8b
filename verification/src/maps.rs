//! Code that reads an object into a map. A map has no layout to write to: it is made,
//! and each member moved into it, by functions whose addresses the type holds.
use crate::ascii::CLOSE_BRACE;
use crate::cursor::{load_u8, ws};
use crate::interp::{Block, OpV};
use crate::ir::{
    Args, Cc, FuncIr, FuncV, Inst, Point, Region, Shim, State, Target, Term, Val, Value,
};
use crate::leaf::{parse_str, Pctx};
use crate::nodes::{comma, Build, Entry, Mod};
use crate::parser::parse;
use crate::plan::{SeqLayout, Site, Ty, TyV};
use crate::read::SLOT_ALIGN;
use crate::steps::Line;
use vstd::prelude::*;

verus! {

/// The code of a map.
pub struct MapCode {
    pub tab: Seq<Entry>,
    pub env: Seq<usize>,
    pub seq: SeqLayout,
    pub key_size: u64,
    pub val: TyV,
    pub val_size: u64,
    pub new_at: u64,
    pub insert: u64,
    pub dst: Value,
    pub cur: Value,
    pub x: Pctx,
    pub head: usize,
    pub body: usize,
    pub done: usize,
    /// The start; past white space; before the loop, and at the end of what comes
    /// before it.
    pub p: Point,
    pub p1: Point,
    pub p2: Point,
    pub z: Point,
    pub c0: Value,
    /// The head: the start, past white space, and the end.
    pub h: Point,
    pub h1: Point,
    pub h2: Point,
    pub hc: Value,
    /// The body: the start; before and after the key; past white space; before and
    /// after the value; after the move; at the end. The cursors there.
    pub k: Point,
    pub k1: Point,
    pub k2: Point,
    pub k3: Point,
    pub k4: Point,
    pub k5: Point,
    pub k6: Point,
    pub k7: Point,
    pub ke: Value,
    pub kc: Value,
    pub e: Value,
    pub next: Value,
}

impl MapCode {
    pub open spec fn ty(self) -> TyV {
        TyV::BTreeMap {
            key: Box::new(TyV::Str(self.seq)),
            key_size: self.key_size,
            val: Box::new(self.val),
            val_size: self.val_size,
            new_at: self.new_at,
            insert: self.insert,
        }
    }

    /// The address of the function that moves members into the map.
    pub open spec fn ins(self) -> Value {
        crate::ir::slot(self.p1, 3)
    }

    /// The blocks for a key and a value.
    pub open spec fn kb(self) -> Value {
        crate::ir::slot(self.k, 2)
    }

    pub open spec fn vb(self) -> Value {
        crate::ir::slot(self.k3, 3)
    }

    pub open spec fn start_line(self) -> Seq<Inst> {
        Seq::empty()
            .push(Inst::IaddImm(self.c0, 1))
            .push(Inst::Iconst(self.new_at as i64))
            .push(Inst::MapNew { at: crate::ir::slot(self.p1, 1), dst: self.dst })
            .push(Inst::Iconst(self.insert as i64))
    }

    pub open spec fn start_end(self) -> Term {
        Term::Jump(Target { block: self.head, args: Args::One(crate::ir::slot(self.p1, 0)) })
    }

    pub open spec fn head_line(self) -> Seq<Inst> {
        Seq::empty()
            .push(Inst::Load { width: 1, addr: self.hc, off: 0 })
            .push(Inst::Uextend(crate::ir::slot(self.h1, 0)))
            .push(Inst::TestImm(Cc::Equal, crate::ir::slot(self.h1, 1), CLOSE_BRACE as i64))
            .push(Inst::IaddImm(self.hc, 1))
    }

    pub open spec fn head_end(self) -> Term {
        Term::Brif(
            crate::ir::slot(self.h1, 2),
            Target { block: self.done, args: Args::One(crate::ir::slot(self.h1, 3)) },
            Target { block: self.body, args: Args::One(self.hc) },
        )
    }

    pub open spec fn key_line(self) -> Seq<Inst> {
        Seq::empty()
            .push(Inst::Iconst(crate::read::room(self.key_size) as i64))
            .push(Inst::Iconst(16))
            .push(
                Inst::Call(
                    Shim::Alloc,
                    Args::Two(crate::ir::slot(self.k, 0), crate::ir::slot(self.k, 1)),
                ),
            )
    }

    pub open spec fn val_line(self) -> Seq<Inst> {
        Seq::empty()
            .push(Inst::IaddImm(self.kc, 1))
            .push(Inst::Iconst(crate::read::room(self.val_size) as i64))
            .push(Inst::Iconst(16))
            .push(
                Inst::Call(
                    Shim::Alloc,
                    Args::Two(crate::ir::slot(self.k3, 1), crate::ir::slot(self.k3, 2)),
                ),
            )
    }

    pub open spec fn move_line(self) -> Seq<Inst> {
        Seq::empty().push(
            Inst::MapInsert { at: self.ins(), dst: self.dst, key: self.kb(), val: self.vb() },
        )
    }

    pub open spec fn body_end(self) -> Term {
        Term::Jump(Target { block: self.head, args: Args::One(self.next) })
    }

    pub open spec fn stands_in(self, q: FuncV) -> bool {
        &&& crate::ir::laid(q, self.p1, self.start_line())
        &&& crate::ir::sealed(q, self.z, self.start_end())
        &&& crate::ir::laid(q, self.h1, self.head_line())
        &&& crate::ir::sealed(q, self.h2, self.head_end())
        &&& crate::ir::laid(q, self.k, self.key_line())
        &&& crate::ir::laid(q, self.k3, self.val_line())
        &&& crate::ir::laid(q, self.k5, self.move_line())
        &&& crate::ir::sealed(q, self.k7, self.body_end())
        &&& crate::ir::takes(q, self.head, 1)
        &&& crate::ir::takes(q, self.body, 1)
        &&& crate::ir::takes(q, self.done, 1)
        &&& crate::ir::extends(self.p1.f, q)
        &&& crate::ir::extends(self.h1.f, q)
        &&& crate::ir::extends(self.k2.f, q)
        &&& crate::ir::extends(self.k3.f, q)
        &&& crate::ir::extends(self.k5.f, q)
        &&& crate::ir::extends(self.k7.f, q)
    }

    pub open spec fn wf(self) -> bool {
        let p0 = self.p2.f;
        &&& crate::read::room(self.key_size) <= i64::MAX
        &&& crate::read::room(self.val_size) <= i64::MAX
        &&& self.new_at <= i64::MAX
        &&& self.insert <= i64::MAX
        &&& self.head >= p0.blocks.len()
        &&& self.body >= p0.blocks.len()
        &&& self.done >= p0.blocks.len()
        &&& self.z.cur == self.p1.cur
        &&& crate::ir::size_at(self.z) == crate::ir::size_at(self.p1) + 4
        &&& self.h.cur == self.head
        &&& crate::ir::size_at(self.h) == 0
        &&& self.h2.cur == self.h1.cur
        &&& crate::ir::size_at(self.h2) == crate::ir::size_at(self.h1) + 4
        &&& self.k.cur == self.body
        &&& crate::ir::size_at(self.k) == 0
        &&& self.k1.cur == self.k.cur
        &&& crate::ir::size_at(self.k1) == 3
        &&& self.k4.cur == self.k3.cur
        &&& crate::ir::size_at(self.k4) == crate::ir::size_at(self.k3) + 4
        &&& self.k6.cur == self.k5.cur
        &&& crate::ir::size_at(self.k6) == crate::ir::size_at(self.k5) + 1
        &&& crate::ir::open_at(self.p)
        &&& crate::ir::open_at(self.p1)
        &&& crate::ir::open_at(self.h1)
        &&& crate::ir::open_at(self.k)
        &&& crate::ir::open_at(self.k3)
        &&& crate::ir::open_at(self.k5)
        &&& crate::ir::extends(self.p.f, self.p1.f)
        &&& crate::ir::extends(self.p1.f, p0)
        &&& crate::ir::extends(self.p.f, p0)
        &&& crate::ir::extends(p0, self.h.f)
        &&& crate::ir::extends(p0, self.h1.f)
        &&& crate::ir::extends(p0, self.k.f)
        &&& crate::ir::extends(self.k.f, self.k1.f)
        &&& crate::ir::extends(self.k1.f, self.k2.f)
        &&& crate::ir::extends(self.k2.f, self.k3.f)
        &&& crate::ir::extends(self.k3.f, self.k4.f)
        &&& crate::ir::extends(self.k4.f, self.k5.f)
        &&& crate::ir::extends(self.k5.f, self.k6.f)
        &&& crate::ir::extends(p0, self.k1.f)
        &&& crate::ir::extends(p0, self.k2.f)
        &&& crate::ir::extends(p0, self.k3.f)
        &&& crate::ir::extends(p0, self.k4.f)
        &&& crate::ir::extends(p0, self.k5.f)
        &&& crate::ir::extends(p0, self.k6.f)
        &&& crate::ir::built(self.p.f, self.dst)
        &&& crate::ir::built(self.p.f, self.cur)
        &&& crate::ir::built(self.p.f, self.x.end)
        &&& crate::ir::built(self.p.f, self.x.sc)
        &&& crate::ir::built(self.p1.f, self.c0)
        &&& crate::ir::built(p0, self.dst)
        &&& crate::ir::built(p0, self.x.end)
        &&& crate::ir::built(p0, self.x.sc)
        &&& crate::ir::built(p0, self.ins())
        &&& crate::ir::built(self.h1.f, self.hc)
        &&& crate::ir::built(self.k.f, Value::Param(self.body, 0))
        &&& crate::ir::built(self.k1.f, self.kb())
        &&& crate::ir::built(self.k2.f, self.kb())
        &&& crate::ir::built(self.k2.f, self.ke)
        &&& crate::ir::built(self.k3.f, self.kb())
        &&& crate::ir::built(self.k3.f, self.kc)
        &&& crate::ir::built(self.k4.f, self.kb())
        &&& crate::ir::built(self.k4.f, self.vb())
        &&& crate::ir::built(self.k5.f, self.kb())
        &&& crate::ir::built(self.k5.f, self.vb())
        &&& crate::ir::built(self.k5.f, self.e)
        &&& crate::ir::built(self.k6.f, self.e)
        &&& crate::cursor::skips_space(self.p, self.p1, self.cur, self.x.end, self.c0)
        &&& crate::cursor::skips_space(
            self.h,
            self.h1,
            Value::Param(self.head, 0),
            self.x.end,
            self.hc,
        )
        &&& crate::leaf::reads_leaf(
            TyV::Str(self.seq),
            self.k1,
            self.k2,
            self.kb(),
            Value::Param(self.body, 0),
            self.x,
            self.ke,
        )
        &&& crate::cursor::skips_space(self.k2, self.k3, self.ke, self.x.end, self.kc)
        &&& crate::nodes::reads(
            self.tab,
            self.val,
            self.env,
            self.k4,
            self.k5,
            self.vb(),
            crate::ir::slot(self.k3, 0),
            self.x,
            self.e,
        )
        &&& crate::nodes::skips_comma(self.k6, self.k7, self.e, self.x.end, self.next)
    }

    /// Whether the values are those of a loop over members.
    pub open spec fn holds(self, c: Mod, a: State, d: Seq<u8>) -> bool {
        &&& crate::nodes::callable(c, self.tab)
        &&& crate::nodes::env_ok(c.tab, self.env)
        &&& d.len() <= i64::MAX
        &&& crate::ir::get(a.vals, self.x.end) == Some(crate::cursor::spot(d, d.len() as int))
        &&& crate::ir::get(a.vals, self.x.sc) == Some(Val::Ptr(Region::Scratch, 0))
        &&& crate::ir::get(a.vals, self.ins()) == Some(Val::Int(self.insert as int))
        &&& crate::leaf::place(a, self.dst)
    }

    pub open spec fn entries(self, c: Mod, a: State, d: Seq<u8>, at: int) -> Option<(Seq<OpV>, int)> {
        crate::read::read_entries(
            c.n,
            self.seq,
            self.key_size,
            self.val,
            self.val_size,
            self.insert,
            crate::nodes::scope(c.tab, self.env),
            d,
            at,
            crate::leaf::block_of(a, self.dst),
            crate::leaf::off_of(a, self.dst) as u64,
            a.world.ops.len(),
        )
    }

    pub open spec fn entry(self, c: Mod, a: State, d: Seq<u8>, h: int) -> Option<(Seq<OpV>, int)> {
        crate::read::read_entry(
            c.n,
            self.seq,
            self.key_size,
            self.val,
            self.val_size,
            self.insert,
            crate::nodes::scope(c.tab, self.env),
            d,
            h,
            crate::leaf::block_of(a, self.dst),
            crate::leaf::off_of(a, self.dst) as u64,
            a.world.ops.len(),
        )
    }

    /// The head: out at the closing brace, to the body otherwise.
    proof fn lemma_head(self, c: Mod, q: FuncV, a: State, d: Seq<u8>, at: int) -> (t: State)
        requires
            self.wf(),
            self.stands_in(q),
            self.holds(c, a, d),
            0 <= at,
            a.block == self.head,
            a.at == 0,
            crate::ir::get(a.vals, Value::Param(self.head, 0)) == Some(crate::cursor::spot(d, at)),
            crate::scan::space_end(d, at) < d.len(),
        ensures
            ({
                let h = crate::scan::space_end(d, at);
                &&& at <= h
                &&& crate::ir::goes(c.m, q, a, t)
                &&& crate::ir::keeps(self.p2.f, a, t)
                &&& t.world == a.world
                &&& t.at == 0
                &&& d[h] == CLOSE_BRACE ==> t.block == self.done && crate::ir::get(
                    t.vals,
                    Value::Param(self.done, 0),
                ) == Some(crate::cursor::spot(d, h + 1))
                &&& d[h] != CLOSE_BRACE ==> t.block == self.body && crate::ir::get(
                    t.vals,
                    Value::Param(self.body, 0),
                ) == Some(crate::cursor::spot(d, h))
            }),
    {
        crate::scan::lemma_space_end(d, at);
        let h = crate::scan::space_end(d, at);
        let cur = Value::Param(self.head, 0);
        assert(crate::cursor::ready_at(c.m, q, a, self.h, self.h1, cur, self.x.end));
        let spot = crate::cursor::spot(d, h);
        let b = crate::ir::computed(c.m, q, a, self.h.f, self.h1, self.hc, spot, a.world);
        crate::ir::lemma_keeps_trans(self.p2.f, self.h.f, a, a, b);
        let g = Line { m: c.m, q, p0: self.p2.f, s0: a, o: self.h1, l: self.head_line() };
        let y = d[h];
        let v = Val::Int(y as int);
        let b0 = g.load(b, 0, v);
        let b1 = g.uextend(b0, 1, v);
        let b2 = g.test_imm(b1, 2, crate::ir::truth(y == CLOSE_BRACE));
        let b3 = g.iadd_imm(b2, 3, crate::cursor::spot(d, h + 1));
        let to = if y == CLOSE_BRACE {
            Target { block: self.done, args: Args::One(crate::ir::slot(self.h1, 3)) }
        } else {
            Target { block: self.body, args: Args::One(self.hc) }
        };
        crate::ir::goto(c.m, q, self.p2.f, a, b3, self.h2, self.head_end(), to)
    }

    /// The body up to the end of the key.
    #[verifier::spinoff_prover]
    #[verifier::rlimit(60)]
    proof fn lemma_key(self, c: Mod, q: FuncV, a: State, d: Seq<u8>, h: int) -> (t: State)
        requires
            self.wf(),
            self.stands_in(q),
            self.holds(c, a, d),
            0 <= h,
            a.block == self.body,
            a.at == 0,
            crate::ir::get(a.vals, Value::Param(self.body, 0)) == Some(crate::cursor::spot(d, h)),
            self.entry(c, a, d, h) is Some,
            a.world.ops.len() + crate::nodes::ops_of(self.entry(c, a, d, h)).len() <= usize::MAX,
        ensures
            ({
                let base = a.world.ops.len();
                let heap = Block::Heap(base as usize);
                let (key, ke) = crate::read::read_str(self.seq, d, h, heap, 0, base + 1)->0;
                let first = OpV::Alloc { size: crate::read::room(self.key_size), align: SLOT_ALIGN };
                &&& h < ke
                &&& crate::ir::goes(c.m, q, a, t)
                &&& crate::ir::keeps(self.p2.f, a, t)
                &&& crate::ir::stands(t, self.k2)
                &&& t.world.ops == a.world.ops + seq![first] + key
                &&& crate::ir::get(t.vals, self.kb()) == Some(Val::Ptr(Region::Out(heap), 0))
                &&& crate::ir::get(t.vals, self.ke) == Some(crate::cursor::spot(d, ke))
            }),
    {
        let base = a.world.ops.len();
        let heap = Block::Heap(base as usize);
        let size = crate::read::room(self.key_size);
        let first = OpV::Alloc { size, align: SLOT_ALIGN };
        let (key, ke) = crate::read::read_str(self.seq, d, h, heap, 0, base + 1)->0;
        crate::scan::lemma_space_end(d, h);
        crate::scan::lemma_quote_at(d, crate::scan::space_end(d, h) + 1);
        let g = Line { m: c.m, q, p0: self.p2.f, s0: a, o: self.k, l: self.key_line() };
        crate::ir::lemma_goes_refl(c.m, q, a);
        let b0 = g.iconst(a, 0, Val::Int(size as int));
        let b1 = g.iconst(b0, 1, Val::Int(16));
        let w = crate::ir::push_op(a.world, first);
        let b2 = g.call_two(b1, 2, Val::Ptr(Region::Out(heap), 0), w);
        let bc = Value::Param(self.body, 0);
        assert(crate::ir::get(b0.vals, bc) == crate::ir::get(a.vals, bc));
        assert(crate::ir::get(b1.vals, bc) == crate::ir::get(b0.vals, bc));
        assert(crate::ir::get(b2.vals, bc) == crate::ir::get(b1.vals, bc));
        assert(crate::ir::get(b2.vals, self.x.end) == crate::ir::get(a.vals, self.x.end));
        assert(crate::ir::get(b2.vals, self.x.sc) == crate::ir::get(a.vals, self.x.sc));
        assert(crate::leaf::leaf_result(TyV::Str(self.seq), b2, self.kb(), bc, self.x) == Some((key, ke)));
        assert(crate::leaf::ready_leaf(
            c.m,
            q,
            b2,
            self.k1,
            self.k2,
            TyV::Str(self.seq),
            self.kb(),
            bc,
            self.x,
        ));
        let t = crate::leaf::read_got(c.m, q, b2, self.k1, self.k2, self.ke, d, key, ke);
        crate::ir::go_on(c.m, q, self.p2.f, a, b2, self.k1.f, t);
        assert(crate::ir::get(t.vals, self.kb()) == crate::ir::get(b2.vals, self.kb()));
        assert(t.world.ops =~= a.world.ops + seq![first] + key);
        t
    }

    /// The body from the key on to the move.
    #[verifier::spinoff_prover]
    #[verifier::rlimit(80)]
    proof fn lemma_entry(self, c: Mod, q: FuncV, a: State, d: Seq<u8>, h: int) -> (t: State)
        requires
            self.wf(),
            self.stands_in(q),
            self.holds(c, a, d),
            0 <= h,
            a.block == self.body,
            a.at == 0,
            crate::ir::get(a.vals, Value::Param(self.body, 0)) == Some(crate::cursor::spot(d, h)),
            self.entry(c, a, d, h) is Some,
            a.world.ops.len() + crate::nodes::ops_of(self.entry(c, a, d, h)).len() <= usize::MAX,
        ensures
            crate::ir::goes(c.m, q, a, t),
            crate::ir::keeps(self.p2.f, a, t),
            crate::ir::stands(t, self.k6),
            t.world.ops == a.world.ops + crate::nodes::ops_of(self.entry(c, a, d, h)),
            0 <= crate::nodes::end_of(self.entry(c, a, d, h)),
            crate::ir::get(t.vals, self.e) == Some(
                crate::cursor::spot(d, crate::nodes::end_of(self.entry(c, a, d, h))),
            ),
    {
        let base = a.world.ops.len();
        let heap = Block::Heap(base as usize);
        let (key, ke) = crate::read::read_str(self.seq, d, h, heap, 0, base + 1)->0;
        let first = OpV::Alloc { size: crate::read::room(self.key_size), align: SLOT_ALIGN };
        let size = crate::read::room(self.val_size);
        let second = OpV::Alloc { size, align: SLOT_ALIGN };
        let slot = base + 1 + key.len();
        let cell = Block::Heap(slot as usize);
        let b = self.lemma_key(c, q, a, d, h);
        assert(crate::ir::get(b.vals, self.x.end) == crate::ir::get(a.vals, self.x.end));
        assert(crate::ir::get(b.vals, self.x.sc) == crate::ir::get(a.vals, self.x.sc));
        assert(crate::cursor::ready_at(c.m, q, b, self.k2, self.k3, self.ke, self.x.end));
        crate::scan::lemma_space_end(d, ke);
        let gap = crate::scan::space_end(d, ke);
        let spot = crate::cursor::spot(d, gap);
        let b1 = crate::ir::computed(c.m, q, b, self.k2.f, self.k3, self.kc, spot, b.world);
        crate::ir::go_on(c.m, q, self.p2.f, a, b, self.k2.f, b1);
        assert(crate::ir::get(b1.vals, self.kb()) == crate::ir::get(b.vals, self.kb()));
        let g = Line { m: c.m, q, p0: self.p2.f, s0: a, o: self.k3, l: self.val_line() };
        let at = gap + 1;
        let c0 = g.iadd_imm(b1, 0, crate::cursor::spot(d, at));
        let c1 = g.iconst(c0, 1, Val::Int(size as int));
        let c2 = g.iconst(c1, 2, Val::Int(16));
        let w = crate::ir::push_op(b1.world, second);
        assert(b1.world.ops.len() == slot);
        let c3 = g.call_two(c2, 3, Val::Ptr(Region::Out(cell), 0), w);
        let vc = crate::ir::slot(self.k3, 0);
        assert(crate::ir::get(c3.vals, vc) == Some(crate::cursor::spot(d, at)));
        assert(crate::ir::get(c3.vals, self.kb()) == crate::ir::get(b1.vals, self.kb()));
        assert(crate::ir::get(c3.vals, self.x.end) == crate::ir::get(a.vals, self.x.end));
        assert(crate::ir::get(c3.vals, self.x.sc) == crate::ir::get(a.vals, self.x.sc));
        let r = crate::nodes::result(c, c3, self.val, self.env, self.vb(), vc, self.x);
        let ops = crate::nodes::ops_of(r);
        let e = crate::nodes::end_of(r);
        assert(r == crate::read::read(
            c.n,
            self.val,
            crate::nodes::scope(c.tab, self.env),
            d,
            at,
            cell,
            0,
            slot + 1,
        ));
        crate::read::lemma_read(
            c.n,
            self.val,
            crate::nodes::scope(c.tab, self.env),
            d,
            at,
            cell,
            0,
            slot + 1,
        );
        assert(crate::nodes::ready_read(
            c,
            self.tab,
            q,
            c3,
            self.k4,
            self.k5,
            self.val,
            self.env,
            self.vb(),
            vc,
            self.x,
        ));
        let u = crate::leaf::read_got(c.m, q, c3, self.k4, self.k5, self.e, d, ops, e);
        crate::ir::go_on(c.m, q, self.p2.f, a, c3, self.k4.f, u);
        assert(crate::ir::get(u.vals, self.kb()) == crate::ir::get(c3.vals, self.kb()));
        assert(crate::ir::get(u.vals, self.vb()) == crate::ir::get(c3.vals, self.vb()));
        assert(crate::ir::get(u.vals, self.dst) == crate::ir::get(a.vals, self.dst));
        assert(crate::ir::get(u.vals, self.ins()) == crate::ir::get(a.vals, self.ins()));
        let block = crate::leaf::block_of(a, self.dst);
        let off = crate::leaf::off_of(a, self.dst) as u64;
        let last = OpV::MapInsert {
            block,
            off,
            key: base as usize,
            val: slot as usize,
            at: self.insert,
        };
        let g2 = Line { m: c.m, q, p0: self.p2.f, s0: a, o: self.k5, l: self.move_line() };
        let t = g2.map_insert(u, 0, Val::Int(0), crate::ir::push_op(u.world, last));
        assert(crate::ir::get(t.vals, self.e) == crate::ir::get(u.vals, self.e));
        let all = seq![first] + key + seq![second] + ops + seq![last];
        assert(self.entry(c, a, d, h) == Some((all, e)));
        assert(t.world.ops =~= a.world.ops + all);
        t
    }

    /// The loop moves the members into the map.
    #[verifier::spinoff_prover]
    #[verifier::rlimit(80)]
    proof fn lemma_loop(self, c: Mod, q: FuncV, a: State, d: Seq<u8>, at: int)
        requires
            self.wf(),
            self.stands_in(q),
            self.holds(c, a, d),
            0 <= at,
            a.block == self.head,
            a.at == 0,
            crate::ir::get(a.vals, Value::Param(self.head, 0)) == Some(crate::cursor::spot(d, at)),
            self.entries(c, a, d, at) is Some,
            a.world.ops.len() + crate::nodes::ops_of(self.entries(c, a, d, at)).len() <= usize::MAX,
        ensures
            crate::members::arrives(
                c.m,
                q,
                a,
                self.p2.f,
                self.done,
                d,
                crate::nodes::ops_of(self.entries(c, a, d, at)),
                crate::nodes::end_of(self.entries(c, a, d, at)),
            ),
        decreases d.len() + 2 - at,
    {
        let p0 = self.p2.f;
        let want = self.entries(c, a, d, at);
        let ops = crate::nodes::ops_of(want);
        let last = crate::nodes::end_of(want);
        let b = self.lemma_head(c, q, a, d, at);
        let h = crate::scan::space_end(d, at);
        if d[h] == CLOSE_BRACE {
            assert(a.world.ops + Seq::<OpV>::empty() =~= a.world.ops);
            assert(crate::members::arrived(a, b, p0, self.done, d, ops, last));
            return ;
        }
        assert(crate::ir::get(b.vals, self.dst) == crate::ir::get(a.vals, self.dst));
        assert(self.holds(c, b, d));
        let one = self.entry(c, b, d, h);
        assert(one is Some);
        let ops1 = crate::nodes::ops_of(one);
        let e1 = crate::nodes::end_of(one);
        let u = self.lemma_entry(c, q, b, d, h);
        crate::ir::go_on(c.m, q, p0, a, b, p0, u);
        assert(crate::ir::get(u.vals, self.x.end) == crate::ir::get(a.vals, self.x.end));
        assert(crate::nodes::ready_comma(c.m, q, u, self.k6, self.k7, self.e, self.x.end));
        let next = crate::read::comma_end(d, e1)->0;
        let spot = crate::cursor::spot(d, next);
        let w = crate::ir::computed(c.m, q, u, self.k6.f, self.k7, self.next, spot, u.world);
        crate::ir::go_on(c.m, q, p0, a, u, self.k6.f, w);
        let back = Target { block: self.head, args: Args::One(self.next) };
        let v = crate::ir::goto(c.m, q, p0, a, w, self.k7, self.body_end(), back);
        assert(crate::ir::get(v.vals, self.dst) == crate::ir::get(a.vals, self.dst));
        assert(self.holds(c, v, d));
        let more = self.entries(c, v, d, next);
        assert(v.world.ops.len() == a.world.ops.len() + ops1.len());
        self.lemma_loop(c, q, v, d, next);
        let t = crate::members::arrival(
            c.m,
            q,
            v,
            p0,
            self.done,
            d,
            crate::nodes::ops_of(more),
            crate::nodes::end_of(more),
        );
        crate::ir::go_on(c.m, q, p0, a, v, p0, t);
        assert(t.world.ops =~= a.world.ops + ops);
        assert(crate::members::arrived(a, t, p0, self.done, d, ops, last));
    }

    /// The whole.
    #[verifier::spinoff_prover]
    #[verifier::rlimit(80)]
    proof fn lemma_all(self, c: Mod, q: FuncV, s: State, to: Point)
        requires
            self.wf(),
            self.stands_in(q),
            crate::nodes::ready_read(
                c,
                self.tab,
                q,
                s,
                self.p,
                to,
                self.ty(),
                self.env,
                self.dst,
                self.cur,
                self.x,
            ),
            to.cur == self.done,
            crate::ir::size_at(to) == 0,
        ensures
            ({
                let r = crate::nodes::result(c, s, self.ty(), self.env, self.dst, self.cur, self.x);
                crate::leaf::read_to(
                    c.m,
                    q,
                    s,
                    self.p,
                    to,
                    Value::Param(self.done, 0),
                    crate::cursor::data(s, self.x.end),
                    crate::nodes::ops_of(r),
                    crate::nodes::end_of(r),
                )
            }),
    {
        let x = self.x;
        let d = crate::cursor::data(s, x.end);
        let at = crate::cursor::pos(s, self.cur);
        let r = crate::nodes::result(c, s, self.ty(), self.env, self.dst, self.cur, x);
        let ops = crate::nodes::ops_of(r);
        let last = crate::nodes::end_of(r);
        let block = crate::leaf::block_of(s, self.dst);
        let off = crate::leaf::off_of(s, self.dst) as u64;
        let new = OpV::MapNew { block, off, at: self.new_at };
        crate::scan::lemma_space_end(d, at);
        let h = crate::scan::space_end(d, at);
        assert(crate::cursor::ready_at(c.m, q, s, self.p, self.p1, self.cur, x.end));
        let spot = crate::cursor::spot(d, h);
        let b = crate::ir::computed(c.m, q, s, self.p.f, self.p1, self.c0, spot, s.world);
        crate::ir::lemma_keeps_trans(self.p.f, self.p.f, s, s, b);
        assert(crate::ir::get(b.vals, self.dst) == crate::ir::get(s.vals, self.dst));
        let g = Line { m: c.m, q, p0: self.p.f, s0: s, o: self.p1, l: self.start_line() };
        let b0 = g.iadd_imm(b, 0, crate::cursor::spot(d, h + 1));
        let b1 = g.iconst(b0, 1, Val::Int(self.new_at as int));
        assert(crate::ir::get(b1.vals, self.dst) == crate::ir::get(s.vals, self.dst));
        let b2 = g.map_new(b1, 2, Val::Int(0), crate::ir::push_op(b1.world, new));
        let b3 = g.iconst(b2, 3, Val::Int(self.insert as int));
        let first = crate::ir::slot(self.p1, 0);
        assert(crate::ir::get(b3.vals, first) == Some(crate::cursor::spot(d, h + 1)));
        let head = Target { block: self.head, args: Args::One(first) };
        let a = crate::ir::goto(c.m, q, self.p.f, s, b3, self.z, self.start_end(), head);
        assert(crate::ir::get(a.vals, x.end) == crate::ir::get(s.vals, x.end));
        assert(crate::ir::get(a.vals, x.sc) == crate::ir::get(s.vals, x.sc));
        assert(crate::ir::get(a.vals, self.dst) == crate::ir::get(s.vals, self.dst));
        assert(crate::ir::get(a.vals, self.ins()) == Some(Val::Int(self.insert as int)));
        assert(self.holds(c, a, d));
        let want = self.entries(c, a, d, h + 1);
        assert(a.world.ops.len() == s.world.ops.len() + 1);
        assert(r == (match want {
            Some((more, e)) => Some((seq![new] + more, e)),
            None => None,
        }));
        self.lemma_loop(c, q, a, d, h + 1);
        let t = crate::members::arrival(
            c.m,
            q,
            a,
            self.p2.f,
            self.done,
            d,
            crate::nodes::ops_of(want),
            crate::nodes::end_of(want),
        );
        crate::ir::go_on(c.m, q, self.p.f, s, a, self.p2.f, t);
        assert(t.world.ops =~= s.world.ops + ops);
        assert(crate::leaf::read_at(
            s,
            t,
            self.p,
            to,
            Value::Param(self.done, 0),
            d,
            ops,
            last,
        ));
    }
}

fn room_of(size: u64) -> (r: u64)
    ensures
        r == crate::read::room(size),
{
    if size == 0 {
        1
    } else {
        size
    }
}

/// Adds the code that reads a map.
#[verifier::spinoff_prover]
#[verifier::rlimit(100)]
pub fn parse_map(
    b: &mut Build,
    f: &mut FuncIr,
    seq: &SeqLayout,
    key_size: u64,
    val: &Ty,
    val_size: u64,
    new_at: u64,
    insert: u64,
    env: &Vec<(Site, usize, &Ty)>,
    dst: Value,
    cur: Value,
    x: &Pctx,
) -> (r: Value)
    requires
        2 + crate::plan::weight(val@) <= crate::plan::MAX_WEIGHT,
        crate::binder::near(*seq),
        old(b).wf(),
        crate::nodes::env_is(old(b).tab@, env@),
        crate::leaf::can_build(*old(f), dst, cur, *x),
        key_size <= i64::MAX,
        val_size <= i64::MAX,
        new_at <= i64::MAX,
        insert <= i64::MAX,
        crate::parser::unreadable(val@, crate::nodes::sites_of(env@)) is None,
    ensures
        crate::nodes::spent(
            *old(b),
            old(f).point(),
            *final(b),
            final(f).point(),
            crate::binder::STEP * (2 + crate::plan::weight(val@)),
            (crate::plan::recs(val@)) as int,
        ),
        old(b).extended(*final(b)),
        crate::binder::advanced(old(f).point(), final(f).point()),
        crate::ir::built(final(f)@, r),
        crate::nodes::reads(
            final(b).tab@,
            (TyV::BTreeMap {
                key: Box::new(TyV::Str(*seq)),
                key_size,
                val: Box::new(val@),
                val_size,
                new_at,
                insert,
            }),
            crate::nodes::indices(env@),
            old(f).point(),
            final(f).point(),
            dst,
            cur,
            *x,
            r,
        ),
    decreases val, 1nat,
{
    let ghost p = f.point();
    let ghost ix = crate::nodes::indices(env@);
    assert(crate::ir::extends(p.f, p.f)) by {
        crate::ir::lemma_laid_none(p);
    }
    let c0: Value = ws(f, cur, x.end);
    let ghost p1 = f.point();
    proof {
        crate::ir::lemma_laid_none(p1);
    }
    let first: Value = f.emit(Inst::IaddImm(c0, 1));
    let make: Value = f.emit(Inst::Iconst(new_at as i64));
    f.emit(Inst::MapNew { at: make, dst });
    let ins: Value = f.emit(Inst::Iconst(insert as i64));
    let ghost p2 = f.point();
    assert(crate::ir::extends(p2.f, p2.f));
    let head: usize = f.create_block(1);
    let body: usize = f.create_block(1);
    let done: usize = f.create_block(1);
    let ghost z = f.point();
    f.end(Term::Jump(Target { block: head, args: Args::One(first) }));
    f.switch_to(head);
    let ghost h = f.point();
    let hc: Value = ws(f, Value::Param(head, 0), x.end);
    let ghost h1 = f.point();
    proof {
        crate::ir::lemma_laid_none(h1);
    }
    let byte: Value = load_u8(f, hc);
    let is_end: Value = f.emit(Inst::TestImm(Cc::Equal, byte, CLOSE_BRACE as i64));
    let past: Value = f.emit(Inst::IaddImm(hc, 1));
    let ghost h2 = f.point();
    f.end(
        Term::Brif(
            is_end,
            Target { block: done, args: Args::One(past) },
            Target { block: body, args: Args::One(hc) },
        ),
    );
    f.switch_to(body);
    let ghost k = f.point();
    let key_room: u64 = room_of(key_size);
    let val_room: u64 = room_of(val_size);
    let ks: Value = f.emit(Inst::Iconst(key_room as i64));
    let kl: Value = f.emit(Inst::Iconst(16));
    let kb: Value = f.emit(Inst::Call(Shim::Alloc, Args::Two(ks, kl)));
    let ghost k1 = f.point();
    assert(crate::ir::extends(k1.f, k1.f));
    let ke: Value = parse_str(f, seq, kb, Value::Param(body, 0), x);
    let ghost k2 = f.point();
    assert(crate::ir::extends(k2.f, k2.f));
    let kc: Value = ws(f, ke, x.end);
    let ghost k3 = f.point();
    proof {
        crate::ir::lemma_laid_none(k3);
    }
    let vc: Value = f.emit(Inst::IaddImm(kc, 1));
    let vs: Value = f.emit(Inst::Iconst(val_room as i64));
    let vl: Value = f.emit(Inst::Iconst(16));
    let vb: Value = f.emit(Inst::Call(Shim::Alloc, Args::Two(vs, vl)));
    let ghost k4 = f.point();
    assert(crate::ir::extends(k4.f, k4.f));
    let e: Value = parse(b, f, val, env, vb, vc, x);
    let ghost k5 = f.point();
    proof {
        crate::ir::lemma_laid_none(k5);
    }
    f.emit(Inst::MapInsert { at: ins, dst, key: kb, val: vb });
    let ghost k6 = f.point();
    assert(crate::ir::extends(k6.f, k6.f));
    let next: Value = comma(f, e, x.end);
    let ghost k7 = f.point();
    f.end(Term::Jump(Target { block: head, args: Args::One(next) }));
    f.switch_to(done);
    let ghost to = f.point();
    let r: Value = Value::Param(done, 0);
    let ghost o = MapCode {
        tab: b.tab@,
        env: ix,
        seq: *seq,
        key_size,
        val: val@,
        val_size,
        new_at,
        insert,
        dst,
        cur,
        x: *x,
        head,
        body,
        done,
        p,
        p1,
        p2,
        z,
        c0,
        h,
        h1,
        h2,
        hc,
        k,
        k1,
        k2,
        k3,
        k4,
        k5,
        k6,
        k7,
        ke,
        kc,
        e,
        next,
    };
    proof {
        crate::ir::lemma_carried(p, to);
        assert(crate::ir::laid(to.f, p1, o.start_line()));
        assert(crate::ir::laid(to.f, h1, o.head_line()));
        assert(crate::ir::laid(to.f, k, o.key_line()));
        assert(crate::ir::laid(to.f, k3, o.val_line()));
        assert(crate::ir::laid(to.f, k5, o.move_line()));
        assert(o.wf());
        assert(o.stands_in(to.f));
        let ty = o.ty();
        assert forall|c: Mod, q: FuncV, s: State| #[trigger]
            crate::nodes::ready_read(
                c,
                b.tab@,
                q,
                s,
                p,
                to,
                ty,
                ix,
                dst,
                cur,
                *x,
            ) implies crate::leaf::read_to(
            c.m,
            q,
            s,
            p,
            to,
            r,
            crate::cursor::data(s, x.end),
            crate::nodes::ops_of(crate::nodes::result(c, s, ty, ix, dst, cur, *x)),
            crate::nodes::end_of(crate::nodes::result(c, s, ty, ix, dst, cur, *x)),
        ) by {
            crate::ir::lemma_has_all(to.f, q);
            assert(o.stands_in(q));
            o.lemma_all(c, q, s, to);
        }
    }
    r
}

} // verus!
