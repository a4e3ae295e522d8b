//! Code that reads an array into a `Vec`: once over it to count the items, and
//! once more, with room for them, to read them.
use crate::ascii::CLOSE_BRACKET;
use crate::binder::store_seq;
use crate::cursor::{load_u8, ws};
use crate::interp::{Block, OpV};
use crate::ir::{
    Args, Cc, FuncIr, FuncV, Inst, Point, Region, Shim, State, Target, Term, Val, Value,
};
use crate::leaf::Pctx;
use crate::nodes::{comma, Build, Entry, Mod};
use crate::parser::parse;
use crate::plan::{SeqLayout, Site, Ty, TyV};
use crate::steps::Line;
use vstd::prelude::*;

verus! {

// ---------------------------------------------------------------------------
// Counting.
// ---------------------------------------------------------------------------

/// The code that counts the items of an array.
pub struct CountCode {
    pub end: Value,
    pub head: usize,
    pub body: usize,
    pub done: usize,
    /// What had been built before the loop.
    pub p0: FuncV,
    /// The head: the start, past white space, and the end; the cursor there.
    pub h: Point,
    pub h1: Point,
    pub h2: Point,
    pub hc: Value,
    /// The body: the start, after an item, after a comma, and the end; the cursor
    /// there.
    pub k: Point,
    pub k1: Point,
    pub k2: Point,
    pub k3: Point,
    pub next: Value,
}

impl CountCode {
    pub open spec fn head_line(self) -> Seq<Inst> {
        Seq::empty()
            .push(Inst::Load { width: 1, addr: self.hc, off: 0 })
            .push(Inst::Uextend(crate::ir::slot(self.h1, 0)))
            .push(Inst::TestImm(Cc::Equal, crate::ir::slot(self.h1, 1), CLOSE_BRACKET as i64))
    }

    pub open spec fn head_end(self) -> Term {
        let both = Args::Two(self.hc, Value::Param(self.head, 1));
        Term::Brif(
            crate::ir::slot(self.h1, 2),
            Target { block: self.done, args: both },
            Target { block: self.body, args: both },
        )
    }

    pub open spec fn skip_line(self) -> Seq<Inst> {
        Seq::empty().push(
            Inst::Call(Shim::Skip, Args::Two(Value::Param(self.body, 0), self.end)),
        )
    }

    pub open spec fn more_line(self) -> Seq<Inst> {
        Seq::empty().push(Inst::IaddImm(Value::Param(self.body, 1), 1))
    }

    pub open spec fn body_end(self) -> Term {
        Term::Jump(
            Target {
                block: self.head,
                args: Args::Two(self.next, crate::ir::slot(self.k2, 0)),
            },
        )
    }

    pub open spec fn stands_in(self, q: FuncV) -> bool {
        &&& crate::ir::laid(q, self.h1, self.head_line())
        &&& crate::ir::sealed(q, self.h2, self.head_end())
        &&& crate::ir::laid(q, self.k, self.skip_line())
        &&& crate::ir::laid(q, self.k2, self.more_line())
        &&& crate::ir::sealed(q, self.k3, self.body_end())
        &&& crate::ir::takes(q, self.head, 2)
        &&& crate::ir::takes(q, self.body, 2)
        &&& crate::ir::takes(q, self.done, 2)
        &&& crate::ir::extends(self.h1.f, q)
        &&& crate::ir::extends(self.k2.f, q)
    }

    pub open spec fn wf(self) -> bool {
        &&& self.head >= self.p0.blocks.len()
        &&& self.body >= self.p0.blocks.len()
        &&& self.done >= self.p0.blocks.len()
        &&& self.h.cur == self.head
        &&& crate::ir::size_at(self.h) == 0
        &&& self.h2.cur == self.h1.cur
        &&& crate::ir::size_at(self.h2) == crate::ir::size_at(self.h1) + 3
        &&& self.k.cur == self.body
        &&& crate::ir::size_at(self.k) == 0
        &&& self.k1.cur == self.body
        &&& crate::ir::size_at(self.k1) == 1
        &&& self.k3.cur == self.k2.cur
        &&& crate::ir::size_at(self.k3) == crate::ir::size_at(self.k2) + 1
        &&& crate::ir::open_at(self.h1)
        &&& crate::ir::open_at(self.k)
        &&& crate::ir::open_at(self.k2)
        &&& crate::ir::extends(self.p0, self.h.f)
        &&& crate::ir::extends(self.h.f, self.h1.f)
        &&& crate::ir::extends(self.p0, self.h1.f)
        &&& crate::ir::extends(self.p0, self.k.f)
        &&& crate::ir::extends(self.k.f, self.k1.f)
        &&& crate::ir::extends(self.k1.f, self.k2.f)
        &&& crate::ir::extends(self.p0, self.k1.f)
        &&& crate::ir::extends(self.p0, self.k2.f)
        &&& crate::ir::built(self.p0, self.end)
        &&& crate::ir::built(self.h.f, Value::Param(self.head, 1))
        &&& crate::ir::built(self.h1.f, Value::Param(self.head, 1))
        &&& crate::ir::built(self.h1.f, self.hc)
        &&& crate::ir::built(self.k.f, Value::Param(self.body, 1))
        &&& crate::ir::built(self.k1.f, Value::Param(self.body, 1))
        &&& crate::ir::built(self.k1.f, crate::ir::slot(self.k, 0))
        &&& crate::ir::built(self.k2.f, self.next)
        &&& crate::cursor::skips_space(
            self.h,
            self.h1,
            Value::Param(self.head, 0),
            self.end,
            self.hc,
        )
        &&& crate::nodes::skips_comma(
            self.k1,
            self.k2,
            crate::ir::slot(self.k, 0),
            self.end,
            self.next,
        )
    }

    /// The head: out at the closing bracket, to the body otherwise.
    proof fn lemma_head(self, m: Seq<FuncV>, q: FuncV, a: State, d: Seq<u8>, at: int, x: int) -> (t:
        State)
        requires
            self.wf(),
            self.stands_in(q),
            d.len() <= i64::MAX,
            0 <= at,
            a.block == self.head,
            a.at == 0,
            crate::digits::params_are(a, self.head, d, at, x),
            crate::ir::get(a.vals, self.end) == Some(crate::cursor::spot(d, d.len() as int)),
            crate::scan::space_end(d, at) < d.len(),
        ensures
            ({
                let h = crate::scan::space_end(d, at);
                let b = if d[h] == CLOSE_BRACKET {
                    self.done
                } else {
                    self.body
                };
                &&& at <= h
                &&& crate::ir::goes(m, q, a, t)
                &&& crate::ir::keeps(self.p0, a, t)
                &&& t.world == a.world
                &&& t.at == 0
                &&& t.block == b
                &&& crate::digits::params_are(t, b, d, h, x)
            }),
    {
        crate::scan::lemma_space_end(d, at);
        let h = crate::scan::space_end(d, at);
        let cur = Value::Param(self.head, 0);
        let n = Value::Param(self.head, 1);
        assert(crate::cursor::ready_at(m, q, a, self.h, self.h1, cur, self.end));
        let spot = crate::cursor::spot(d, h);
        let b = crate::ir::computed(m, q, a, self.h.f, self.h1, self.hc, spot, a.world);
        crate::ir::lemma_keeps_trans(self.p0, self.h.f, a, a, b);
        assert(crate::ir::get(b.vals, n) == crate::ir::get(a.vals, n));
        let g = Line { m, q, p0: self.p0, s0: a, o: self.h1, l: self.head_line() };
        let y = d[h];
        let v = Val::Int(y as int);
        let b0 = g.load(b, 0, v);
        let b1 = g.uextend(b0, 1, v);
        let b2 = g.test_imm(b1, 2, crate::ir::truth(y == CLOSE_BRACKET));
        let to = Target {
            block: (if y == CLOSE_BRACKET {
                self.done
            } else {
                self.body
            }),
            args: Args::Two(self.hc, n),
        };
        crate::ir::goto(m, q, self.p0, a, b2, self.h2, self.head_end(), to)
    }

    /// The body: past one item and a comma.
    proof fn lemma_body(self, m: Seq<FuncV>, q: FuncV, a: State, d: Seq<u8>, h: int, x: int) -> (t:
        State)
        requires
            self.wf(),
            self.stands_in(q),
            d.len() <= i64::MAX,
            0 <= h < d.len(),
            0 <= x < 0xffff_ffff_ffff_ffff,
            a.block == self.body,
            a.at == 0,
            crate::digits::params_are(a, self.body, d, h, x),
            crate::ir::get(a.vals, self.end) == Some(crate::cursor::spot(d, d.len() as int)),
            crate::read::comma_end(d, crate::scan::value_end(d, h)) is Some,
        ensures
            crate::ir::goes(m, q, a, t),
            crate::ir::keeps(self.p0, a, t),
            t.world == a.world,
            t.at == 0,
            t.block == self.head,
            crate::digits::params_are(
                t,
                self.head,
                d,
                crate::read::comma_end(d, crate::scan::value_end(d, h))->0,
                x + 1,
            ),
    {
        let e = crate::scan::value_end(d, h);
        crate::scan::lemma_value_end(d, h);
        let n = Value::Param(self.body, 1);
        let item = crate::ir::slot(self.k, 0);
        crate::ir::lemma_built(self.p0, self.k.f, self.end);
        let g = Line { m, q, p0: self.p0, s0: a, o: self.k, l: self.skip_line() };
        crate::ir::lemma_goes_refl(m, q, a);
        let b = g.call_two(a, 0, crate::cursor::spot(d, e), a.world);
        assert(crate::nodes::ready_comma(m, q, b, self.k1, self.k2, item, self.end));
        let next = crate::read::comma_end(d, e)->0;
        let spot = crate::cursor::spot(d, next);
        let c = crate::ir::computed(m, q, b, self.k1.f, self.k2, self.next, spot, b.world);
        crate::ir::go_on(m, q, self.p0, a, b, self.k1.f, c);
        assert(crate::ir::get(c.vals, n) == crate::ir::get(b.vals, n));
        crate::ir::lemma_built(self.k1.f, self.k2.f, n);
        let g2 = Line { m, q, p0: self.p0, s0: a, o: self.k2, l: self.more_line() };
        let u = g2.iadd_imm(c, 0, Val::Int(x + 1));
        let back = Target {
            block: self.head,
            args: Args::Two(self.next, crate::ir::slot(self.k2, 0)),
        };
        crate::ir::goto(m, q, self.p0, a, u, self.k3, self.body_end(), back)
    }

    /// The loop counts the items.
    proof fn lemma_loop(self, m: Seq<FuncV>, q: FuncV, a: State, d: Seq<u8>, at: int, x: int) -> (t:
        State)
        requires
            self.wf(),
            self.stands_in(q),
            d.len() <= i64::MAX,
            0 <= at,
            0 <= x,
            a.block == self.head,
            a.at == 0,
            crate::digits::params_are(a, self.head, d, at, x),
            crate::ir::get(a.vals, self.end) == Some(crate::cursor::spot(d, d.len() as int)),
            crate::read::count(d, at) is Some,
            x + crate::read::count(d, at)->0 < 0xffff_ffff_ffff_ffff,
        ensures
            crate::ir::goes(m, q, a, t),
            crate::ir::keeps(self.p0, a, t),
            t.world == a.world,
            t.at == 0,
            t.block == self.done,
            crate::ir::get(t.vals, Value::Param(self.done, 1)) == Some(
                Val::Int(x + crate::read::count(d, at)->0),
            ),
        decreases d.len() + 2 - at,
    {
        let h = crate::scan::space_end(d, at);
        let b = self.lemma_head(m, q, a, d, at, x);
        if d[h] == CLOSE_BRACKET {
            return b;
        }
        let next = crate::read::comma_end(d, crate::scan::value_end(d, h))->0;
        let c = self.lemma_body(m, q, b, d, h, x);
        crate::ir::go_on(m, q, self.p0, a, b, self.p0, c);
        let t = self.lemma_loop(m, q, c, d, next, x + 1);
        crate::ir::go_on(m, q, self.p0, a, c, self.p0, t);
        t
    }
}

/// There are no more items than bytes.
proof fn lemma_count(d: Seq<u8>, c: int)
    requires
        0 <= c,
    ensures
        crate::read::count(d, c) matches Some(k) ==> k <= d.len() - c,
    decreases d.len() + 2 - c,
{
    let h = crate::scan::space_end(d, c);
    if c <= h < d.len() && d[h] != CLOSE_BRACKET {
        if let Some(next) = crate::read::comma_end(d, crate::scan::value_end(d, h)) {
            if next > c && next <= d.len() {
                lemma_count(d, next);
            }
        }
    }
}

// ---------------------------------------------------------------------------
// Reading.
// ---------------------------------------------------------------------------

/// The code that reads the items of an array.
pub struct ItemsCode {
    pub tab: Seq<Entry>,
    pub env: Seq<usize>,
    pub elem: TyV,
    pub elem_size: u64,
    pub x: Pctx,
    /// The size of an item, how many there are, and the block for them.
    pub esz: Value,
    pub n: Value,
    pub buf: Value,
    pub head: usize,
    pub body: usize,
    pub done: usize,
    /// What had been built before the loop.
    pub p0: FuncV,
    /// The head: the start and the end.
    pub h: Point,
    pub h1: Point,
    /// The body: the start, past white space, before and after the item, after a
    /// comma, and the end; the cursors there.
    pub k: Point,
    pub k1: Point,
    pub k2: Point,
    pub k3: Point,
    pub k4: Point,
    pub k5: Point,
    pub ec: Value,
    pub e: Value,
    pub next: Value,
}

impl ItemsCode {
    pub open spec fn head_line(self) -> Seq<Inst> {
        Seq::empty().push(Inst::Test(Cc::Uge, Value::Param(self.head, 1), self.n))
    }

    pub open spec fn head_end(self) -> Term {
        let c = Value::Param(self.head, 0);
        Term::Brif(
            crate::ir::slot(self.h, 0),
            Target { block: self.done, args: Args::One(c) },
            Target { block: self.body, args: Args::Two(c, Value::Param(self.head, 1)) },
        )
    }

    pub open spec fn place_line(self) -> Seq<Inst> {
        Seq::empty()
            .push(Inst::Imul(Value::Param(self.body, 1), self.esz))
            .push(Inst::Iadd(self.buf, crate::ir::slot(self.k1, 0)))
    }

    pub open spec fn more_line(self) -> Seq<Inst> {
        Seq::empty().push(Inst::IaddImm(Value::Param(self.body, 1), 1))
    }

    pub open spec fn body_end(self) -> Term {
        Term::Jump(
            Target {
                block: self.head,
                args: Args::Two(self.next, crate::ir::slot(self.k4, 0)),
            },
        )
    }

    pub open spec fn stands_in(self, q: FuncV) -> bool {
        &&& crate::ir::laid(q, self.h, self.head_line())
        &&& crate::ir::sealed(q, self.h1, self.head_end())
        &&& crate::ir::laid(q, self.k1, self.place_line())
        &&& crate::ir::laid(q, self.k4, self.more_line())
        &&& crate::ir::sealed(q, self.k5, self.body_end())
        &&& crate::ir::takes(q, self.head, 2)
        &&& crate::ir::takes(q, self.body, 2)
        &&& crate::ir::takes(q, self.done, 1)
        &&& crate::ir::extends(self.k1.f, q)
        &&& crate::ir::extends(self.k3.f, q)
        &&& crate::ir::extends(self.k4.f, q)
    }

    pub open spec fn wf(self) -> bool {
        &&& self.head >= self.p0.blocks.len()
        &&& self.body >= self.p0.blocks.len()
        &&& self.done >= self.p0.blocks.len()
        &&& self.h.cur == self.head
        &&& crate::ir::size_at(self.h) == 0
        &&& self.h1.cur == self.head
        &&& crate::ir::size_at(self.h1) == 1
        &&& self.k.cur == self.body
        &&& crate::ir::size_at(self.k) == 0
        &&& self.k2.cur == self.k1.cur
        &&& crate::ir::size_at(self.k2) == crate::ir::size_at(self.k1) + 2
        &&& self.k5.cur == self.k4.cur
        &&& crate::ir::size_at(self.k5) == crate::ir::size_at(self.k4) + 1
        &&& crate::ir::open_at(self.h)
        &&& crate::ir::open_at(self.k1)
        &&& crate::ir::open_at(self.k4)
        &&& crate::ir::extends(self.p0, self.h.f)
        &&& crate::ir::extends(self.p0, self.k.f)
        &&& crate::ir::extends(self.k.f, self.k1.f)
        &&& crate::ir::extends(self.k1.f, self.k2.f)
        &&& crate::ir::extends(self.k2.f, self.k3.f)
        &&& crate::ir::extends(self.k3.f, self.k4.f)
        &&& crate::ir::extends(self.p0, self.k1.f)
        &&& crate::ir::extends(self.p0, self.k2.f)
        &&& crate::ir::extends(self.p0, self.k3.f)
        &&& crate::ir::extends(self.p0, self.k4.f)
        &&& crate::ir::built(self.p0, self.x.end)
        &&& crate::ir::built(self.p0, self.x.sc)
        &&& crate::ir::built(self.p0, self.esz)
        &&& crate::ir::built(self.p0, self.n)
        &&& crate::ir::built(self.p0, self.buf)
        &&& crate::ir::built(self.h.f, Value::Param(self.head, 0))
        &&& crate::ir::built(self.h.f, Value::Param(self.head, 1))
        &&& crate::ir::built(self.k.f, Value::Param(self.body, 1))
        &&& crate::ir::built(self.k1.f, Value::Param(self.body, 1))
        &&& crate::ir::built(self.k2.f, Value::Param(self.body, 1))
        &&& crate::ir::built(self.k3.f, Value::Param(self.body, 1))
        &&& crate::ir::built(self.k4.f, Value::Param(self.body, 1))
        &&& crate::ir::built(self.k1.f, self.ec)
        &&& crate::ir::built(self.k3.f, self.e)
        &&& crate::ir::built(self.k4.f, self.next)
        &&& crate::cursor::skips_space(
            self.k,
            self.k1,
            Value::Param(self.body, 0),
            self.x.end,
            self.ec,
        )
        &&& crate::nodes::reads(
            self.tab,
            self.elem,
            self.env,
            self.k2,
            self.k3,
            crate::ir::slot(self.k1, 1),
            self.ec,
            self.x,
            self.e,
        )
        &&& crate::nodes::skips_comma(self.k3, self.k4, self.e, self.x.end, self.next)
    }

    /// Whether the values are those of a loop over that many items.
    pub open spec fn holds(self, c: Mod, a: State, d: Seq<u8>, cnt: nat, heap: Block) -> bool {
        &&& crate::nodes::callable(c, self.tab)
        &&& crate::nodes::env_ok(c.tab, self.env)
        &&& d.len() <= i64::MAX
        &&& cnt * self.elem_size <= i64::MAX
        &&& cnt < 0x1_0000_0000_0000_0000
        &&& crate::ir::get(a.vals, self.x.end) == Some(crate::cursor::spot(d, d.len() as int))
        &&& crate::ir::get(a.vals, self.x.sc) == Some(Val::Ptr(Region::Scratch, 0))
        &&& crate::ir::get(a.vals, self.esz) == Some(Val::Int(self.elem_size as int))
        &&& crate::ir::get(a.vals, self.n) == Some(Val::Int(cnt as int))
        &&& crate::ir::get(a.vals, self.buf) == Some(
            Val::Ptr(Region::Out(heap), 0),
        )
    }

    pub open spec fn items(
        self,
        c: Mod,
        a: State,
        d: Seq<u8>,
        at: int,
        i: nat,
        cnt: nat,
        heap: Block,
    ) -> Option<(Seq<OpV>, int)> {
        crate::read::read_items(
            c.n,
            self.elem,
            i,
            cnt,
            crate::nodes::scope(c.tab, self.env),
            d,
            at,
            self.elem_size,
            heap,
            a.world.ops.len(),
        )
    }

    /// The head: out after the last item, to the body otherwise.
    proof fn lemma_head(
        self,
        c: Mod,
        q: FuncV,
        a: State,
        d: Seq<u8>,
        at: int,
        i: nat,
        cnt: nat,
        heap: Block,
    ) -> (t: State)
        requires
            self.wf(),
            self.stands_in(q),
            self.holds(c, a, d, cnt, heap),
            i <= cnt,
            a.block == self.head,
            a.at == 0,
            crate::digits::params_are(a, self.head, d, at, i as int),
        ensures
            crate::ir::goes(c.m, q, a, t),
            crate::ir::keeps(self.p0, a, t),
            t.world == a.world,
            t.at == 0,
            i >= cnt ==> t.block == self.done && crate::ir::get(
                t.vals,
                Value::Param(self.done, 0),
            ) == Some(crate::cursor::spot(d, at)),
            i < cnt ==> t.block == self.body && crate::digits::params_are(
                t,
                self.body,
                d,
                at,
                i as int,
            ),
    {
        let g = Line { m: c.m, q, p0: self.p0, s0: a, o: self.h, l: self.head_line() };
        crate::ir::lemma_goes_refl(c.m, q, a);
        let b = g.test(a, 0, crate::ir::truth(i >= cnt));
        let cur = Value::Param(self.head, 0);
        let to = if i >= cnt {
            Target { block: self.done, args: Args::One(cur) }
        } else {
            Target { block: self.body, args: Args::Two(cur, Value::Param(self.head, 1)) }
        };
        crate::ir::goto(c.m, q, self.p0, a, b, self.h1, self.head_end(), to)
    }

    /// The body up to the item.
    proof fn lemma_place(
        self,
        c: Mod,
        q: FuncV,
        a: State,
        d: Seq<u8>,
        at: int,
        i: nat,
        cnt: nat,
        heap: Block,
    ) -> (t: State)
        requires
            self.wf(),
            self.stands_in(q),
            self.holds(c, a, d, cnt, heap),
            0 <= at,
            i < cnt,
            a.block == self.body,
            a.at == 0,
            crate::digits::params_are(a, self.body, d, at, i as int),
        ensures
            crate::ir::goes(c.m, q, a, t),
            crate::ir::keeps(self.p0, a, t),
            t.world == a.world,
            crate::ir::stands(t, self.k2),
            0 <= i * self.elem_size <= i64::MAX,
            at <= crate::scan::space_end(d, at),
            crate::ir::get(t.vals, Value::Param(self.body, 1)) == Some(Val::Int(i as int)),
            crate::ir::get(t.vals, self.ec) == Some(
                crate::cursor::spot(d, crate::scan::space_end(d, at)),
            ),
            crate::ir::get(t.vals, crate::ir::slot(self.k1, 1)) == Some(
                Val::Ptr(Region::Out(heap), i * self.elem_size),
            ),
    {
        crate::scan::lemma_space_end(d, at);
        let h = crate::scan::space_end(d, at);
        let cur = Value::Param(self.body, 0);
        let iv = Value::Param(self.body, 1);
        let off = i * self.elem_size;
        assert(0 <= off <= cnt * self.elem_size) by (nonlinear_arith)
            requires
                off == i * self.elem_size,
                0 <= i <= cnt,
                self.elem_size >= 0,
        ;
        assert(crate::cursor::ready_at(c.m, q, a, self.k, self.k1, cur, self.x.end));
        let spot = crate::cursor::spot(d, h);
        let b = crate::ir::computed(c.m, q, a, self.k.f, self.k1, self.ec, spot, a.world);
        crate::ir::lemma_keeps_trans(self.p0, self.k.f, a, a, b);
        assert(crate::ir::get(b.vals, iv) == crate::ir::get(a.vals, iv));
        assert(crate::ir::get(b.vals, self.esz) == crate::ir::get(a.vals, self.esz));
        assert(crate::ir::get(b.vals, self.buf) == crate::ir::get(a.vals, self.buf));
        let g = Line { m: c.m, q, p0: self.p0, s0: a, o: self.k1, l: self.place_line() };
        let e = g.imul(b, 0, Val::Int(off));
        crate::ir::lemma_built(self.p0, self.k1.f, self.buf);
        g.iadd(e, 1, Val::Ptr(Region::Out(heap), off))
    }

    /// The loop reads the items.
    #[verifier::spinoff_prover]
    #[verifier::rlimit(80)]
    proof fn lemma_loop(
        self,
        c: Mod,
        q: FuncV,
        a: State,
        d: Seq<u8>,
        at: int,
        i: nat,
        cnt: nat,
        heap: Block,
    )
        requires
            self.wf(),
            self.stands_in(q),
            self.holds(c, a, d, cnt, heap),
            0 <= at,
            i <= cnt,
            a.block == self.head,
            a.at == 0,
            crate::digits::params_are(a, self.head, d, at, i as int),
            self.items(c, a, d, at, i, cnt, heap) is Some,
            a.world.ops.len() + crate::nodes::ops_of(
                self.items(c, a, d, at, i, cnt, heap),
            ).len() <= usize::MAX,
        ensures
            crate::members::arrives(
                c.m,
                q,
                a,
                self.p0,
                self.done,
                d,
                crate::nodes::ops_of(self.items(c, a, d, at, i, cnt, heap)),
                crate::nodes::end_of(self.items(c, a, d, at, i, cnt, heap)),
            ),
            at <= crate::nodes::end_of(self.items(c, a, d, at, i, cnt, heap)),
        decreases cnt - i,
    {
        let want = self.items(c, a, d, at, i, cnt, heap);
        let ops = crate::nodes::ops_of(want);
        let last = crate::nodes::end_of(want);
        let b = self.lemma_head(c, q, a, d, at, i, cnt, heap);
        if i >= cnt {
            assert(a.world.ops + Seq::<OpV>::empty() =~= a.world.ops);
            assert(crate::members::arrived(a, b, self.p0, self.done, d, ops, last));
            return ;
        }
        assert(self.holds(c, b, d, cnt, heap));
        let h = crate::scan::space_end(d, at);
        let k = self.lemma_place(c, q, b, d, at, i, cnt, heap);
        crate::ir::go_on(c.m, q, self.p0, a, b, self.p0, k);
        assert(self.holds(c, k, d, cnt, heap));
        let edst = crate::ir::slot(self.k1, 1);
        let r = crate::nodes::result(c, k, self.elem, self.env, edst, self.ec, self.x);
        assert(crate::nodes::ready_read(
            c,
            self.tab,
            q,
            k,
            self.k2,
            self.k3,
            self.elem,
            self.env,
            edst,
            self.ec,
            self.x,
        ));
        let ops1 = crate::nodes::ops_of(r);
        let e1 = crate::nodes::end_of(r);
        crate::read::lemma_read(
            c.n,
            self.elem,
            crate::nodes::scope(c.tab, self.env),
            d,
            h,
            heap,
            (i * self.elem_size) as u64,
            k.world.ops.len(),
        );
        let u = crate::leaf::read_got(c.m, q, k, self.k2, self.k3, self.e, d, ops1, e1);
        crate::ir::go_on(c.m, q, self.p0, a, k, self.k2.f, u);
        let iv = Value::Param(self.body, 1);
        assert(crate::ir::get(u.vals, iv) == crate::ir::get(k.vals, iv));
        assert(crate::ir::get(u.vals, self.x.end) == crate::ir::get(a.vals, self.x.end));
        assert(crate::nodes::ready_comma(
            c.m,
            q,
            u,
            self.k3,
            self.k4,
            self.e,
            self.x.end,
        ));
        let next = crate::read::comma_end(d, e1)->0;
        crate::scan::lemma_space_end(d, e1);
        let spot = crate::cursor::spot(d, next);
        let w = crate::ir::computed(c.m, q, u, self.k3.f, self.k4, self.next, spot, u.world);
        crate::ir::go_on(c.m, q, self.p0, a, u, self.k3.f, w);
        assert(crate::ir::get(w.vals, iv) == crate::ir::get(u.vals, iv));
        let g = Line { m: c.m, q, p0: self.p0, s0: a, o: self.k4, l: self.more_line() };
        let w1 = g.iadd_imm(w, 0, Val::Int((i + 1) as int));
        let back = Target {
            block: self.head,
            args: Args::Two(self.next, crate::ir::slot(self.k4, 0)),
        };
        let v = crate::ir::goto(c.m, q, self.p0, a, w1, self.k5, self.body_end(), back);
        assert(self.holds(c, v, d, cnt, heap));
        let more = self.items(c, v, d, next, i + 1, cnt, heap);
        self.lemma_loop(c, q, v, d, next, i + 1, cnt, heap);
        let t = crate::members::arrival(
            c.m,
            q,
            v,
            self.p0,
            self.done,
            d,
            crate::nodes::ops_of(more),
            crate::nodes::end_of(more),
        );
        crate::ir::go_on(c.m, q, self.p0, a, v, self.p0, t);
        assert(t.world.ops =~= a.world.ops + ops);
        assert(crate::members::arrived(a, t, self.p0, self.done, d, ops, last));
    }
}

// ---------------------------------------------------------------------------
// The whole.
// ---------------------------------------------------------------------------

/// The code of a `Vec` around its two loops.
pub struct ArrayCode {
    pub ty: TyV,
    pub align: u64,
    pub dst: Value,
    pub cur: Value,
    pub c0: Value,
    pub count: CountCode,
    pub items: ItemsCode,
    /// The start; past white space; at the end of what comes before counting.
    pub p: Point,
    pub p1: Point,
    pub p2: Point,
    pub z: Point,
    /// After counting: the start and the end of what comes before reading.
    pub n0: Point,
    pub n1: Point,
    /// After reading: the start, past white space, past the bracket.
    pub f0: Point,
    pub f1: Point,
    pub f2: Point,
    pub fc: Value,
    pub to: Point,
}

impl ArrayCode {
    pub open spec fn size_line(self) -> Seq<Inst> {
        Seq::empty().push(Inst::Iconst(self.items.elem_size as i64))
    }

    pub open spec fn start_line(self) -> Seq<Inst> {
        Seq::empty().push(Inst::IaddImm(self.c0, 1)).push(Inst::Iconst(0))
    }

    pub open spec fn first(self) -> Value {
        crate::ir::slot(self.p2, 0)
    }

    pub open spec fn start_end(self) -> Term {
        Term::Jump(
            Target {
                block: self.count.head,
                args: Args::Two(self.first(), crate::ir::slot(self.p2, 1)),
            },
        )
    }

    pub open spec fn room_line(self) -> Seq<Inst> {
        Seq::empty()
            .push(Inst::Imul(self.items.n, self.items.esz))
            .push(Inst::Iconst(self.align as i64))
            .push(
                Inst::Call(
                    Shim::Alloc,
                    Args::Two(crate::ir::slot(self.n0, 0), crate::ir::slot(self.n0, 1)),
                ),
            )
            .push(Inst::Iconst(0))
    }

    pub open spec fn room_end(self) -> Term {
        Term::Jump(
            Target {
                block: self.items.head,
                args: Args::Two(self.first(), crate::ir::slot(self.n0, 3)),
            },
        )
    }

    pub open spec fn close_line(self) -> Seq<Inst> {
        Seq::empty().push(Inst::IaddImm(self.fc, 1))
    }

    pub open spec fn stands_in(self, q: FuncV) -> bool {
        &&& self.count.stands_in(q)
        &&& self.items.stands_in(q)
        &&& crate::ir::laid(q, self.p, self.size_line())
        &&& crate::ir::laid(q, self.p2, self.start_line())
        &&& crate::ir::sealed(q, self.z, self.start_end())
        &&& crate::ir::laid(q, self.n0, self.room_line())
        &&& crate::ir::sealed(q, self.n1, self.room_end())
        &&& crate::ir::laid(q, self.f1, self.close_line())
        &&& crate::ir::extends(self.p2.f, q)
        &&& crate::ir::extends(self.f1.f, q)
    }

    pub open spec fn wf(self) -> bool {
        &&& self.ty matches TyV::Vec { elem, elem_size, elem_align, seq }
        &&& *elem == self.items.elem
        &&& elem_size == self.items.elem_size
        &&& elem_size <= i64::MAX
        &&& self.align == (if elem_align == 0 {
            1
        } else {
            elem_align
        })
        &&& self.align <= i64::MAX
        &&& self.count.wf()
        &&& self.items.wf()
        &&& self.count.end == self.items.x.end
        &&& self.items.esz == crate::ir::slot(self.p, 0)
        &&& self.items.n == Value::Param(self.count.done, 1)
        &&& self.items.buf == crate::ir::slot(self.n0, 2)
        &&& self.p1.cur == self.p.cur
        &&& crate::ir::size_at(self.p1) == crate::ir::size_at(self.p) + 1
        &&& self.z.cur == self.p2.cur
        &&& crate::ir::size_at(self.z) == crate::ir::size_at(self.p2) + 2
        &&& self.n0.cur == self.count.done
        &&& crate::ir::size_at(self.n0) == 0
        &&& self.n1.cur == self.n0.cur
        &&& crate::ir::size_at(self.n1) == 4
        &&& self.f0.cur == self.items.done
        &&& crate::ir::size_at(self.f0) == 0
        &&& self.f2.cur == self.f1.cur
        &&& crate::ir::size_at(self.f2) == crate::ir::size_at(self.f1) + 1
        &&& crate::ir::open_at(self.p)
        &&& crate::ir::open_at(self.p2)
        &&& crate::ir::open_at(self.n0)
        &&& crate::ir::open_at(self.f1)
        &&& crate::ir::extends(self.p.f, self.p1.f)
        &&& crate::ir::extends(self.p1.f, self.p2.f)
        &&& crate::ir::extends(self.p.f, self.p2.f)
        &&& crate::ir::extends(self.p2.f, self.count.p0)
        &&& crate::ir::extends(self.p.f, self.count.p0)
        &&& crate::ir::extends(self.count.p0, self.n0.f)
        &&& crate::ir::extends(self.p.f, self.n0.f)
        &&& crate::ir::extends(self.n0.f, self.items.p0)
        &&& crate::ir::extends(self.p.f, self.items.p0)
        &&& crate::ir::extends(self.items.p0, self.f0.f)
        &&& crate::ir::extends(self.p.f, self.f0.f)
        &&& crate::ir::extends(self.f0.f, self.f1.f)
        &&& crate::ir::extends(self.p.f, self.f1.f)
        &&& crate::ir::extends(self.f1.f, self.f2.f)
        &&& crate::ir::extends(self.p.f, self.f2.f)
        &&& crate::ir::built(self.p.f, self.dst)
        &&& crate::ir::built(self.p.f, self.cur)
        &&& crate::ir::built(self.p.f, self.items.x.end)
        &&& crate::ir::built(self.p.f, self.items.x.sc)
        &&& crate::ir::built(self.p1.f, self.items.esz)
        &&& crate::ir::built(self.p2.f, self.items.esz)
        &&& crate::ir::built(self.p2.f, self.c0)
        &&& crate::ir::built(self.count.p0, self.items.esz)
        &&& crate::ir::built(self.count.p0, self.first())
        &&& crate::ir::built(self.n0.f, self.items.esz)
        &&& crate::ir::built(self.n0.f, self.items.n)
        &&& crate::ir::built(self.n0.f, self.first())
        &&& crate::ir::built(self.f0.f, self.items.n)
        &&& crate::ir::built(self.f0.f, self.items.buf)
        &&& crate::ir::built(self.f1.f, self.items.n)
        &&& crate::ir::built(self.f1.f, self.items.buf)
        &&& crate::ir::built(self.f1.f, self.fc)
        &&& crate::ir::built(self.f2.f, crate::ir::slot(self.f1, 0))
        &&& crate::cursor::skips_space(
            self.p1,
            self.p2,
            self.cur,
            self.items.x.end,
            self.c0,
        )
        &&& crate::cursor::skips_space(
            self.f0,
            self.f1,
            Value::Param(self.items.done, 0),
            self.items.x.end,
            self.fc,
        )
        &&& crate::binder::writes_words(
            seq,
            self.f2,
            self.to,
            self.dst,
            self.items.buf,
            self.items.n,
        )
    }

    pub open spec fn ready(self, c: Mod, q: FuncV, s: State) -> bool {
        crate::nodes::ready_read(
            c,
            self.items.tab,
            q,
            s,
            self.p,
            self.to,
            self.ty,
            self.items.env,
            self.dst,
            self.cur,
            self.items.x,
        )
    }

    pub open spec fn result(self, c: Mod, s: State) -> Option<(Seq<OpV>, int)> {
        crate::nodes::result(
            c,
            s,
            self.ty,
            self.items.env,
            self.dst,
            self.cur,
            self.items.x,
        )
    }

    /// Where the items begin.
    pub open spec fn begin(self, s: State) -> int {
        crate::scan::space_end(
            crate::cursor::data(s, self.items.x.end),
            crate::cursor::pos(s, self.cur),
        ) + 1
    }

    /// How many items there are.
    pub open spec fn cnt(self, s: State) -> nat {
        crate::read::count(crate::cursor::data(s, self.items.x.end), self.begin(s))->0
    }

    /// Up to the end of counting.
    #[verifier::spinoff_prover]
    #[verifier::rlimit(80)]
    proof fn lemma_counted(self, c: Mod, q: FuncV, s: State) -> (t: State)
        requires
            self.wf(),
            self.stands_in(q),
            self.ready(c, q, s),
        ensures
            crate::ir::goes(c.m, q, s, t),
            crate::ir::keeps(self.p.f, s, t),
            t.world == s.world,
            t.block == self.count.done,
            t.at == 0,
            crate::ir::get(t.vals, self.items.esz) == Some(
                Val::Int(self.items.elem_size as int),
            ),
            crate::ir::get(t.vals, self.items.n) == Some(Val::Int(self.cnt(s) as int)),
            crate::ir::get(t.vals, self.first()) == Some(
                crate::cursor::spot(crate::cursor::data(s, self.items.x.end), self.begin(s)),
            ),
            0 < self.begin(s),
    {
        let x = self.items.x;
        let d = crate::cursor::data(s, x.end);
        let at = crate::cursor::pos(s, self.cur);
        crate::scan::lemma_space_end(d, at);
        let h = crate::scan::space_end(d, at);
        lemma_count(d, h + 1);
        let g = Line { m: c.m, q, p0: self.p.f, s0: s, o: self.p, l: self.size_line() };
        g.begin(s);
        let a = g.iconst(s, 0, Val::Int(self.items.elem_size as int));
        assert(crate::ir::get(a.vals, self.cur) == crate::ir::get(s.vals, self.cur));
        assert(crate::ir::get(a.vals, x.end) == crate::ir::get(s.vals, x.end));
        assert(crate::cursor::ready_at(c.m, q, a, self.p1, self.p2, self.cur, x.end));
        let spot = crate::cursor::spot(d, h);
        let b = crate::ir::computed(c.m, q, a, self.p1.f, self.p2, self.c0, spot, a.world);
        crate::ir::go_on(c.m, q, self.p.f, s, a, self.p1.f, b);
        let g2 = Line { m: c.m, q, p0: self.p.f, s0: s, o: self.p2, l: self.start_line() };
        let b0 = g2.iadd_imm(b, 0, crate::cursor::spot(d, h + 1));
        let b1 = g2.iconst(b0, 1, Val::Int(0));
        let head = Target {
            block: self.count.head,
            args: Args::Two(self.first(), crate::ir::slot(self.p2, 1)),
        };
        let e = crate::ir::goto(c.m, q, self.p.f, s, b1, self.z, self.start_end(), head);
        assert(crate::ir::get(e.vals, self.items.esz) == Some(
            Val::Int(self.items.elem_size as int),
        )) by {
            assert(crate::ir::get(b.vals, self.items.esz) == crate::ir::get(
                a.vals,
                self.items.esz,
            ));
            assert(crate::ir::get(b0.vals, self.items.esz) == crate::ir::get(
                b.vals,
                self.items.esz,
            ));
            assert(crate::ir::get(b1.vals, self.items.esz) == crate::ir::get(
                b0.vals,
                self.items.esz,
            ));
        }
        assert(crate::ir::get(e.vals, self.first()) == Some(crate::cursor::spot(d, h + 1)));
        assert(crate::ir::get(e.vals, x.end) == crate::ir::get(s.vals, x.end));
        let t = self.count.lemma_loop(c.m, q, e, d, h + 1, 0);
        crate::ir::go_on(c.m, q, self.p.f, s, e, self.count.p0, t);
        t
    }

    /// Up to the end of reading.
    #[verifier::spinoff_prover]
    #[verifier::rlimit(80)]
    proof fn lemma_filled(self, c: Mod, q: FuncV, s: State) -> (t: State)
        requires
            self.wf(),
            self.stands_in(q),
            self.ready(c, q, s),
        ensures
            ({
                let d = crate::cursor::data(s, self.items.x.end);
                let cnt = self.cnt(s);
                let size = cnt * self.items.elem_size;
                let heap = crate::interp::home(size, self.align, s.world.ops.len());
                let pre = crate::interp::home_ops(size, self.align);
                let all = crate::read::read_items(
                    c.n,
                    self.items.elem,
                    0,
                    cnt,
                    crate::nodes::scope(c.tab, self.items.env),
                    d,
                    self.begin(s),
                    self.items.elem_size,
                    heap,
                    s.world.ops.len() + pre.len(),
                );
                &&& all is Some
                &&& 0 <= crate::nodes::end_of(all)
                &&& cnt < 0x1_0000_0000_0000_0000
                &&& crate::ir::goes(c.m, q, s, t)
                &&& crate::ir::keeps(self.p.f, s, t)
                &&& t.block == self.items.done
                &&& t.at == 0
                &&& t.world.ops == s.world.ops + pre + crate::nodes::ops_of(all)
                &&& crate::ir::get(t.vals, Value::Param(self.items.done, 0)) == Some(
                    crate::cursor::spot(d, crate::nodes::end_of(all)),
                )
                &&& crate::ir::get(t.vals, self.items.n) == Some(Val::Int(cnt as int))
                &&& crate::ir::get(t.vals, self.items.buf) == Some(Val::Ptr(Region::Out(heap), 0))
            }),
    {
        let x = self.items.x;
        let d = crate::cursor::data(s, x.end);
        let cnt = self.cnt(s);
        let size = cnt * self.items.elem_size;
        let heap = crate::interp::home(size, self.align, s.world.ops.len());
        let a = self.lemma_counted(c, q, s);
        crate::binder::lemma_items_block(cnt, self.items.elem_size, self.align, s.world);
        let (v, w) = crate::ir::alloc_call(size, self.align as int, s.world)->0;
        let g = Line { m: c.m, q, p0: self.p.f, s0: s, o: self.n0, l: self.room_line() };
        let b0 = g.imul(a, 0, Val::Int(size));
        let b1 = g.iconst(b0, 1, Val::Int(self.align as int));
        let b2 = g.call_two(b1, 2, v, w);
        let b3 = g.iconst(b2, 3, Val::Int(0));
        let head = Target {
            block: self.items.head,
            args: Args::Two(self.first(), crate::ir::slot(self.n0, 3)),
        };
        assert(crate::ir::get(b3.vals, self.first()) == crate::ir::get(a.vals, self.first()));
        let e = crate::ir::goto(c.m, q, self.p.f, s, b3, self.n1, self.room_end(), head);
        assert(crate::ir::get(e.vals, x.end) == crate::ir::get(s.vals, x.end));
        assert(crate::ir::get(e.vals, x.sc) == crate::ir::get(s.vals, x.sc));
        assert(crate::ir::get(e.vals, self.items.esz) == crate::ir::get(a.vals, self.items.esz));
        assert(crate::ir::get(e.vals, self.items.n) == crate::ir::get(a.vals, self.items.n));
        assert(crate::ir::get(e.vals, self.items.buf) == Some(v));
        assert(self.items.holds(c, e, d, cnt, heap));
        let all = self.items.items(c, e, d, self.begin(s), 0, cnt, heap);
        let pre = crate::interp::home_ops(size, self.align);
        assert(e.world.ops =~= s.world.ops + pre);
        self.items.lemma_loop(c, q, e, d, self.begin(s), 0, cnt, heap);
        let t = crate::members::arrival(
            c.m,
            q,
            e,
            self.items.p0,
            self.items.done,
            d,
            crate::nodes::ops_of(all),
            crate::nodes::end_of(all),
        );
        crate::ir::go_on(c.m, q, self.p.f, s, e, self.items.p0, t);
        assert(crate::ir::get(t.vals, self.items.n) == crate::ir::get(e.vals, self.items.n));
        assert(crate::ir::get(t.vals, self.items.buf) == crate::ir::get(e.vals, self.items.buf));
        t
    }

    /// The whole.
    #[verifier::spinoff_prover]
    #[verifier::rlimit(80)]
    proof fn lemma_all(self, c: Mod, q: FuncV, s: State)
        requires
            self.wf(),
            self.stands_in(q),
            self.ready(c, q, s),
        ensures
            crate::leaf::read_to(
                c.m,
                q,
                s,
                self.p,
                self.to,
                crate::ir::slot(self.f1, 0),
                crate::cursor::data(s, self.items.x.end),
                crate::nodes::ops_of(self.result(c, s)),
                crate::nodes::end_of(self.result(c, s)),
            ),
    {
        let x = self.items.x;
        let d = crate::cursor::data(s, x.end);
        let cnt = self.cnt(s);
        let seq = self.ty->Vec_seq;
        let ops = crate::nodes::ops_of(self.result(c, s));
        let last = crate::nodes::end_of(self.result(c, s));
        let a = self.lemma_filled(c, q, s);
        let cur = Value::Param(self.items.done, 0);
        let n = self.items.n;
        let buf = self.items.buf;
        assert(crate::ir::get(a.vals, x.end) == crate::ir::get(s.vals, x.end));
        assert(crate::cursor::ready_at(c.m, q, a, self.f0, self.f1, cur, x.end));
        let e = crate::cursor::pos(a, cur);
        let spot = crate::cursor::spot(d, crate::scan::space_end(d, e));
        let b = crate::ir::computed(c.m, q, a, self.f0.f, self.f1, self.fc, spot, a.world);
        crate::ir::go_on(c.m, q, self.p.f, s, a, self.f0.f, b);
        let g = Line { m: c.m, q, p0: self.p.f, s0: s, o: self.f1, l: self.close_line() };
        let b1 = g.iadd_imm(b, 0, crate::cursor::spot(d, last));
        assert(crate::ir::get(b1.vals, self.dst) == crate::ir::get(s.vals, self.dst));
        assert(crate::ir::get(b1.vals, n) == crate::ir::get(a.vals, n));
        assert(crate::ir::get(b1.vals, buf) == crate::ir::get(a.vals, buf));
        assert(crate::binder::ready_words(
            c.m,
            q,
            b1,
            self.f2,
            self.to,
            seq,
            self.dst,
            buf,
            n,
        ));
        let words = crate::binder::words_at(seq, b1, self.dst, buf, n)->0->Ok_0;
        let w = crate::binder::written(b1.world, words);
        let t = crate::ir::come(c.m, q, b1, self.f2.f, self.to, w);
        crate::ir::go_on(c.m, q, self.p.f, s, b1, self.f2.f, t);
        let r = crate::ir::slot(self.f1, 0);
        assert(crate::ir::get(t.vals, r) == crate::ir::get(b1.vals, r));
        assert(t.world.ops =~= s.world.ops + ops);
        assert(crate::leaf::read_at(s, t, self.p, self.to, r, d, ops, last));
    }
}

/// Adds the code that reads a `Vec`.
#[verifier::spinoff_prover]
#[verifier::rlimit(100)]
pub fn parse_vec(
    b: &mut Build,
    f: &mut FuncIr,
    elem: &Ty,
    elem_size: u64,
    elem_align: u64,
    seq: &SeqLayout,
    env: &Vec<(Site, usize, &Ty)>,
    dst: Value,
    cur: Value,
    x: &Pctx,
) -> (r: Value)
    requires
        1 + crate::plan::weight(elem@) <= crate::plan::MAX_WEIGHT,
        crate::binder::near(*seq),
        old(b).wf(),
        crate::nodes::env_is(old(b).tab@, env@),
        crate::leaf::can_build(*old(f), dst, cur, *x),
        elem_size <= i64::MAX,
        elem_align <= i64::MAX,
        crate::parser::unreadable(elem@, crate::nodes::sites_of(env@)) is None,
    ensures
        crate::nodes::spent(
            *old(b),
            old(f).point(),
            *final(b),
            final(f).point(),
            crate::binder::STEP * (1 + crate::plan::weight(elem@)),
            (crate::plan::recs(elem@)) as int,
        ),
        old(b).extended(*final(b)),
        crate::binder::advanced(old(f).point(), final(f).point()),
        crate::ir::built(final(f)@, r),
        crate::nodes::reads(
            final(b).tab@,
            (TyV::Vec { elem: Box::new(elem@), elem_size, elem_align, seq: *seq }),
            crate::nodes::indices(env@),
            old(f).point(),
            final(f).point(),
            dst,
            cur,
            *x,
            r,
        ),
    decreases elem, 2nat,
{
    let ghost p = f.point();
    let ghost ix = crate::nodes::indices(env@);
    let align: u64 = if elem_align == 0 {
        1
    } else {
        elem_align
    };
    proof {
        crate::ir::lemma_laid_none(p);
    }
    let esz: Value = f.emit(Inst::Iconst(elem_size as i64));
    let ghost p1 = f.point();
    assert(crate::ir::extends(p1.f, p1.f));
    let c0: Value = ws(f, cur, x.end);
    let ghost p2 = f.point();
    proof {
        crate::ir::lemma_laid_none(p2);
    }
    let first: Value = f.emit(Inst::IaddImm(c0, 1));
    let zero: Value = f.emit(Inst::Iconst(0));
    let ghost p3 = f.point();
    assert(crate::ir::extends(p3.f, p3.f));
    let (count, Ghost(cc), Ghost(z)) = emit_count(f, first, zero, x.end);
    let ghost n0 = f.point();
    assert(crate::ir::extends(n0.f, n0.f));
    let n: Value = Value::Param(count, 1);
    let total: Value = f.emit(Inst::Imul(n, esz));
    let al: Value = f.emit(Inst::Iconst(align as i64));
    let buf: Value = f.emit(Inst::Call(Shim::Alloc, Args::Two(total, al)));
    let zero2: Value = f.emit(Inst::Iconst(0));
    let ghost n2 = f.point();
    assert(crate::ir::extends(n2.f, n2.f));
    let (done, Ghost(ic), Ghost(n1)) = emit_items(
        b,
        f,
        elem,
        elem_size,
        env,
        first,
        zero2,
        esz,
        n,
        buf,
        x,
    );
    let ghost f0 = f.point();
    assert(crate::ir::extends(f0.f, f0.f));
    let fc: Value = ws(f, Value::Param(done, 0), x.end);
    let ghost f1 = f.point();
    proof {
        crate::ir::lemma_laid_none(f1);
    }
    let r: Value = f.emit(Inst::IaddImm(fc, 1));
    let ghost f2 = f.point();
    assert(crate::ir::extends(f2.f, f2.f));
    store_seq(f, seq, dst, buf, n);
    let ghost to = f.point();
    let ghost ty = TyV::Vec { elem: Box::new(elem@), elem_size, elem_align, seq: *seq };
    let ghost o = ArrayCode {
        ty,
        align,
        dst,
        cur,
        c0,
        count: cc,
        items: ic,
        p,
        p1,
        p2,
        z,
        n0,
        n1,
        f0,
        f1,
        f2,
        fc,
        to,
    };
    proof {
        crate::ir::lemma_carried(p, to);
        assert(crate::ir::laid(to.f, p, o.size_line()));
        assert(crate::ir::laid(to.f, p2, o.start_line()));
        assert(crate::ir::laid(to.f, n0, o.room_line()));
        assert(crate::ir::laid(to.f, f1, o.close_line()));
        assert(o.wf());
        assert(o.stands_in(to.f));
        assert forall|c: Mod, q: FuncV, s: State| #[trigger]
            crate::nodes::ready_read(
                c,
                b.tab@,
                q,
                s,
                p,
                to,
                ty,
                ix,
                dst,
                cur,
                *x,
            ) implies crate::leaf::read_to(
            c.m,
            q,
            s,
            p,
            to,
            r,
            crate::cursor::data(s, x.end),
            crate::nodes::ops_of(crate::nodes::result(c, s, ty, ix, dst, cur, *x)),
            crate::nodes::end_of(crate::nodes::result(c, s, ty, ix, dst, cur, *x)),
        ) by {
            crate::ir::lemma_has_all(to.f, q);
            assert(o.stands_in(q));
            o.lemma_all(c, q, s);
        }
    }
    r
}

/// Adds the code that counts items: the block where the count is, which building
/// goes on at.
#[verifier::spinoff_prover]
#[verifier::rlimit(100)]
fn emit_count(f: &mut FuncIr, first: Value, zero: Value, end: Value) -> (r: (
    usize,
    Ghost<CountCode>,
    Ghost<Point>,
))
    requires
        crate::ir::open_at(old(f).point()),
        crate::ir::size_at(old(f).point()) <= usize::MAX,
        crate::ir::built(old(f)@, first),
        crate::ir::built(old(f)@, zero),
        crate::ir::built(old(f)@, end),
    ensures
        crate::tidy::adds(old(f).point(), final(f).point(), 200),
        crate::binder::advanced(old(f).point(), final(f).point()),
        ({
            let c = r.1@;
            let z = r.2@;
            &&& c.wf()
            &&& c.stands_in(final(f)@)
            &&& c.done == r.0
            &&& c.end == end
            &&& c.p0 == old(f)@
            &&& z.cur == old(f).cur
            &&& crate::ir::size_at(z) == crate::ir::size_at(old(f).point())
            &&& crate::ir::sealed(
                final(f)@,
                z,
                Term::Jump(Target { block: c.head, args: Args::Two(first, zero) }),
            )
        }),
        final(f).cur == r.0,
        crate::ir::size_at(final(f).point()) == 0,
        crate::ir::laid(final(f)@, final(f).point(), seq![]),
        crate::ir::built(final(f)@, Value::Param(r.0, 1)),
{
    let ghost p = f.point();
    proof {
        crate::ir::lemma_laid_none(p);
    }
    let head: usize = f.create_block(2);
    let body: usize = f.create_block(2);
    let done: usize = f.create_block(2);
    let ghost z = f.point();
    f.end(Term::Jump(Target { block: head, args: Args::Two(first, zero) }));
    f.switch_to(head);
    let ghost h = f.point();
    let hc: Value = ws(f, Value::Param(head, 0), end);
    let ghost h1 = f.point();
    proof {
        crate::ir::lemma_laid_none(h1);
    }
    let byte: Value = load_u8(f, hc);
    let is_end: Value = f.emit(Inst::TestImm(Cc::Equal, byte, CLOSE_BRACKET as i64));
    let ghost h2 = f.point();
    let both: Args = Args::Two(hc, Value::Param(head, 1));
    f.end(
        Term::Brif(
            is_end,
            Target { block: done, args: both },
            Target { block: body, args: both },
        ),
    );
    f.switch_to(body);
    let ghost k = f.point();
    let item: Value = f.emit(Inst::Call(Shim::Skip, Args::Two(Value::Param(body, 0), end)));
    let ghost k1 = f.point();
    assert(crate::ir::extends(k1.f, k1.f));
    let next: Value = comma(f, item, end);
    let ghost k2 = f.point();
    proof {
        crate::ir::lemma_laid_none(k2);
    }
    let more: Value = f.emit(Inst::IaddImm(Value::Param(body, 1), 1));
    let ghost k3 = f.point();
    f.end(Term::Jump(Target { block: head, args: Args::Two(next, more) }));
    f.switch_to(done);
    let ghost c = CountCode {
        end,
        head,
        body,
        done,
        p0: p.f,
        h,
        h1,
        h2,
        hc,
        k,
        k1,
        k2,
        k3,
        next,
    };
    proof {
        let to = f.point();
        crate::ir::lemma_carried(p, to);
        assert(crate::ir::laid(to.f, h1, c.head_line()));
        assert(crate::ir::laid(to.f, k, c.skip_line()));
        assert(crate::ir::laid(to.f, k2, c.more_line()));
        assert(c.wf());
        assert(c.stands_in(to.f));
    }
    (done, Ghost(c), Ghost(z))
}

/// Adds the code that reads items: the block where the cursor after them is,
/// which building goes on at.
#[verifier::spinoff_prover]
#[verifier::rlimit(100)]
fn emit_items(
    b: &mut Build,
    f: &mut FuncIr,
    elem: &Ty,
    elem_size: u64,
    env: &Vec<(Site, usize, &Ty)>,
    first: Value,
    zero: Value,
    esz: Value,
    n: Value,
    buf: Value,
    x: &Pctx,
) -> (r: (usize, Ghost<ItemsCode>, Ghost<Point>))
    requires
        crate::plan::weight(elem@) <= crate::plan::MAX_WEIGHT,
        old(b).wf(),
        crate::nodes::env_is(old(b).tab@, env@),
        crate::parser::unreadable(elem@, crate::nodes::sites_of(env@)) is None,
        crate::leaf::can_build(*old(f), buf, first, *x),
        crate::ir::built(old(f)@, zero),
        crate::ir::built(old(f)@, esz),
        crate::ir::built(old(f)@, n),
    ensures
        crate::nodes::spent(
            *old(b),
            old(f).point(),
            *final(b),
            final(f).point(),
            crate::binder::STEP * (crate::plan::weight(elem@)) + 200,
            (crate::plan::recs(elem@)) as int,
        ),
        old(b).extended(*final(b)),
        crate::binder::advanced(old(f).point(), final(f).point()),
        ({
            let c = r.1@;
            let z = r.2@;
            &&& c.wf()
            &&& c.stands_in(final(f)@)
            &&& c.done == r.0
            &&& c.tab == final(b).tab@
            &&& c.env == crate::nodes::indices(env@)
            &&& c.elem == elem@
            &&& c.elem_size == elem_size
            &&& c.x == *x
            &&& c.esz == esz
            &&& c.n == n
            &&& c.buf == buf
            &&& c.p0 == old(f)@
            &&& z.cur == old(f).cur
            &&& crate::ir::size_at(z) == crate::ir::size_at(old(f).point())
            &&& crate::ir::sealed(
                final(f)@,
                z,
                Term::Jump(Target { block: c.head, args: Args::Two(first, zero) }),
            )
        }),
        final(f).cur == r.0,
        crate::ir::size_at(final(f).point()) == 0,
        crate::ir::built(final(f)@, Value::Param(r.0, 0)),
    decreases elem, 1nat,
{
    let ghost p = f.point();
    proof {
        crate::ir::lemma_laid_none(p);
    }
    let head: usize = f.create_block(2);
    let body: usize = f.create_block(2);
    let done: usize = f.create_block(1);
    let ghost z = f.point();
    f.end(Term::Jump(Target { block: head, args: Args::Two(first, zero) }));
    f.switch_to(head);
    let ghost h = f.point();
    let c: Value = Value::Param(head, 0);
    let i: Value = Value::Param(head, 1);
    let ge: Value = f.emit(Inst::Test(Cc::Uge, i, n));
    let ghost h1 = f.point();
    f.end(
        Term::Brif(
            ge,
            Target { block: done, args: Args::One(c) },
            Target { block: body, args: Args::Two(c, i) },
        ),
    );
    f.switch_to(body);
    let ghost k = f.point();
    let ei: Value = Value::Param(body, 1);
    let ec: Value = ws(f, Value::Param(body, 0), x.end);
    let ghost k1 = f.point();
    proof {
        crate::ir::lemma_laid_none(k1);
    }
    let eoff: Value = f.emit(Inst::Imul(ei, esz));
    let edst: Value = f.emit(Inst::Iadd(buf, eoff));
    let ghost k2 = f.point();
    assert(crate::ir::extends(k2.f, k2.f));
    let e: Value = parse(b, f, elem, env, edst, ec, x);
    let ghost k3 = f.point();
    assert(crate::ir::extends(k3.f, k3.f));
    let next: Value = comma(f, e, x.end);
    let ghost k4 = f.point();
    proof {
        crate::ir::lemma_laid_none(k4);
    }
    let more: Value = f.emit(Inst::IaddImm(ei, 1));
    let ghost k5 = f.point();
    f.end(Term::Jump(Target { block: head, args: Args::Two(next, more) }));
    f.switch_to(done);
    let ghost w = ItemsCode {
        tab: b.tab@,
        env: crate::nodes::indices(env@),
        elem: elem@,
        elem_size,
        x: *x,
        esz,
        n,
        buf,
        head,
        body,
        done,
        p0: p.f,
        h,
        h1,
        k,
        k1,
        k2,
        k3,
        k4,
        k5,
        ec,
        e,
        next,
    };
    proof {
        let to = f.point();
        crate::ir::lemma_carried(p, to);
        assert(crate::ir::laid(to.f, h, w.head_line()));
        assert(crate::ir::laid(to.f, k1, w.place_line()));
        assert(crate::ir::laid(to.f, k4, w.more_line()));
        assert(w.wf());
        assert(w.stands_in(to.f));
    }
    (done, Ghost(w), Ghost(z))
}

} // verus!
