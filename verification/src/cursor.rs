//! Code that moves a cursor over raw JSON: past white space, over a string, over
//! an integer. A cursor is a pointer into the input; the code is emitted in line
//! and calls nothing.
use crate::ascii::{CR, LF, SPACE, TAB};
use crate::ir::{Args, Cc, FuncIr, FuncV, Inst, Point, Region, State, Target, Term, Val, Value};
use crate::steps::Line;
use vstd::prelude::*;

verus! {

/// A position in the input.
pub open spec fn spot(d: Seq<u8>, c: int) -> Val {
    Val::Ptr(Region::Data(d), c)
}

/// The input, by the pointer to its end.
pub open spec fn data(s: State, end: Value) -> Seq<u8> {
    match crate::ir::get(s.vals, end) {
        Some(Val::Ptr(Region::Data(d), _)) => d,
        _ => Seq::empty(),
    }
}

/// Where a cursor is.
pub open spec fn pos(s: State, cur: Value) -> int {
    match crate::ir::get(s.vals, cur) {
        Some(Val::Ptr(Region::Data(_), c)) => c,
        _ => 0,
    }
}

/// Whether there is an input that fits memory, and a cursor in it.
pub open spec fn input(s: State, cur: Value, end: Value) -> bool {
    let d = data(s, end);
    &&& crate::ir::get(s.vals, end) == Some(spot(d, d.len() as int))
    &&& crate::ir::get(s.vals, cur) == Some(spot(d, pos(s, cur)))
    &&& 0 <= pos(s, cur)
    &&& d.len() <= i64::MAX
}

pub open spec fn ready_at(
    m: Seq<FuncV>,
    q: FuncV,
    s: State,
    p: Point,
    to: Point,
    cur: Value,
    end: Value,
) -> bool {
    &&& crate::ir::extends(to.f, q)
    &&& crate::ir::stands(s, p)
    &&& input(s, cur, end)
}

/// Whether the code between two points moves a cursor past white space.
pub open spec fn skips_space(p: Point, to: Point, cur: Value, end: Value, r: Value) -> bool {
    forall|m: Seq<FuncV>, q: FuncV, s: State| #[trigger]
        ready_at(m, q, s, p, to, cur, end) ==> crate::ir::computes(
            m,
            q,
            s,
            p.f,
            to,
            r,
            spot(data(s, end), crate::scan::space_end(data(s, end), pos(s, cur))),
            s.world,
        )
}

/// The points of the code that moves past white space.
pub struct SpaceCode {
    pub end: Value,
    pub head: usize,
    pub chk: usize,
    pub cont: usize,
    pub p: FuncV,
    /// The start and the end of the head, and of the check.
    pub h: Point,
    pub h1: Point,
    pub k: Point,
    pub k1: Point,
}

impl SpaceCode {
    pub open spec fn head_line(self) -> Seq<Inst> {
        Seq::empty().push(Inst::Test(Cc::Ult, Value::Param(self.head, 0), self.end))
    }

    pub open spec fn head_end(self) -> Term {
        let c = Value::Param(self.head, 0);
        Term::Brif(
            crate::ir::slot(self.h, 0),
            Target { block: self.chk, args: Args::One(c) },
            Target { block: self.cont, args: Args::One(c) },
        )
    }

    pub open spec fn chk_line(self) -> Seq<Inst> {
        let c = Value::Param(self.chk, 0);
        let byte = crate::ir::slot(self.k, 1);
        Seq::empty()
            .push(Inst::Load { width: 1, addr: c, off: 0 })
            .push(Inst::Uextend(crate::ir::slot(self.k, 0)))
            .push(Inst::TestImm(Cc::Equal, byte, SPACE as i64))
            .push(Inst::TestImm(Cc::Equal, byte, LF as i64))
            .push(Inst::TestImm(Cc::Equal, byte, TAB as i64))
            .push(Inst::TestImm(Cc::Equal, byte, CR as i64))
            .push(Inst::Bor(crate::ir::slot(self.k, 2), crate::ir::slot(self.k, 3)))
            .push(Inst::Bor(crate::ir::slot(self.k, 4), crate::ir::slot(self.k, 5)))
            .push(Inst::Bor(crate::ir::slot(self.k, 6), crate::ir::slot(self.k, 7)))
            .push(Inst::IaddImm(c, 1))
    }

    pub open spec fn chk_end(self) -> Term {
        Term::Brif(
            crate::ir::slot(self.k, 8),
            Target { block: self.head, args: Args::One(crate::ir::slot(self.k, 9)) },
            Target { block: self.cont, args: Args::One(Value::Param(self.chk, 0)) },
        )
    }

    /// Whether a function has that code.
    pub open spec fn stands_in(self, q: FuncV) -> bool {
        &&& crate::ir::laid(q, self.h, self.head_line())
        &&& crate::ir::sealed(q, self.h1, self.head_end())
        &&& crate::ir::laid(q, self.k, self.chk_line())
        &&& crate::ir::sealed(q, self.k1, self.chk_end())
        &&& crate::ir::takes(q, self.head, 1)
        &&& crate::ir::takes(q, self.chk, 1)
        &&& crate::ir::takes(q, self.cont, 1)
    }

    pub open spec fn wf(self) -> bool {
        &&& self.head >= self.p.blocks.len()
        &&& self.chk >= self.p.blocks.len()
        &&& self.cont >= self.p.blocks.len()
        &&& self.chk != self.cont
        &&& self.h.cur == self.head
        &&& self.h1.cur == self.head
        &&& crate::ir::size_at(self.h) == 0
        &&& crate::ir::size_at(self.h1) == 1
        &&& self.k.cur == self.chk
        &&& self.k1.cur == self.chk
        &&& crate::ir::size_at(self.k) == 0
        &&& crate::ir::size_at(self.k1) == 10
        &&& crate::ir::open_at(self.h)
        &&& crate::ir::open_at(self.k)
        &&& crate::ir::extends(self.p, self.h.f)
        &&& crate::ir::extends(self.p, self.k.f)
        &&& crate::ir::built(self.p, self.end)
        &&& crate::ir::built(self.h.f, Value::Param(self.head, 0))
        &&& crate::ir::built(self.k.f, Value::Param(self.chk, 0))
    }

    /// The head goes to the check where there is a byte, and out otherwise.
    proof fn lemma_head(self, m: Seq<FuncV>, q: FuncV, a: State, d: Seq<u8>, c: int) -> (t: State)
        requires
            self.wf(),
            self.stands_in(q),
            a.block == self.head,
            a.at == 0,
            crate::ir::get(a.vals, Value::Param(self.head, 0)) == Some(spot(d, c)),
            crate::ir::get(a.vals, self.end) == Some(spot(d, d.len() as int)),
        ensures
            crate::ir::goes(m, q, a, t),
            crate::ir::keeps(self.p, a, t),
            t.world == a.world,
            t.at == 0,
            c < d.len() ==> t.block == self.chk && crate::ir::get(
                t.vals,
                Value::Param(self.chk, 0),
            ) == Some(spot(d, c)),
            c >= d.len() ==> t.block == self.cont && crate::ir::get(
                t.vals,
                Value::Param(self.cont, 0),
            ) == Some(spot(d, c)),
    {
        let g = Line { m, q, p0: self.p, s0: a, o: self.h, l: self.head_line() };
        crate::ir::lemma_goes_refl(m, q, a);
        let b = g.test(a, 0, crate::ir::truth(c < d.len()));
        let to = Target {
            block: (if c < d.len() {
                self.chk
            } else {
                self.cont
            }),
            args: Args::One(Value::Param(self.head, 0)),
        };
        crate::ir::goto(m, q, self.p, a, b, self.h1, self.head_end(), to)
    }

    /// The check goes back to the head from white space, and out otherwise.
    proof fn lemma_chk(self, m: Seq<FuncV>, q: FuncV, a: State, d: Seq<u8>, c: int) -> (t: State)
        requires
            self.wf(),
            self.stands_in(q),
            a.block == self.chk,
            a.at == 0,
            0 <= c < d.len(),
            crate::ir::get(a.vals, Value::Param(self.chk, 0)) == Some(spot(d, c)),
        ensures
            crate::ir::goes(m, q, a, t),
            crate::ir::keeps(self.p, a, t),
            t.world == a.world,
            t.at == 0,
            crate::scan::is_space(d[c]) ==> t.block == self.head && crate::ir::get(
                t.vals,
                Value::Param(self.head, 0),
            ) == Some(spot(d, c + 1)),
            !crate::scan::is_space(d[c]) ==> t.block == self.cont && crate::ir::get(
                t.vals,
                Value::Param(self.cont, 0),
            ) == Some(spot(d, c)),
    {
        let x = d[c];
        let v = Val::Int(x as int);
        let g = Line { m, q, p0: self.p, s0: a, o: self.k, l: self.chk_line() };
        crate::ir::lemma_goes_refl(m, q, a);
        let b0 = g.load(a, 0, v);
        let b1 = g.uextend(b0, 1, v);
        let b2 = g.test_imm(b1, 2, crate::ir::truth(x == SPACE));
        let b3 = g.test_imm(b2, 3, crate::ir::truth(x == LF));
        let b4 = g.test_imm(b3, 4, crate::ir::truth(x == TAB));
        let b5 = g.test_imm(b4, 5, crate::ir::truth(x == CR));
        let b6 = g.bor(b5, 6, crate::ir::truth(x == SPACE || x == LF));
        let b7 = g.bor(b6, 7, crate::ir::truth(x == TAB || x == CR));
        let b8 = g.bor(b7, 8, crate::ir::truth(crate::scan::is_space(x)));
        let b9 = g.iadd_imm(b8, 9, spot(d, c + 1));
        let to = if crate::scan::is_space(x) {
            Target { block: self.head, args: Args::One(crate::ir::slot(self.k, 9)) }
        } else {
            Target { block: self.cont, args: Args::One(Value::Param(self.chk, 0)) }
        };
        crate::ir::goto(m, q, self.p, a, b9, self.k1, self.chk_end(), to)
    }

    /// The loop goes out at the first byte that is no white space.
    proof fn lemma_loop(self, m: Seq<FuncV>, q: FuncV, a: State, d: Seq<u8>, c: int) -> (t: State)
        requires
            self.wf(),
            self.stands_in(q),
            a.block == self.head,
            a.at == 0,
            0 <= c,
            crate::ir::get(a.vals, Value::Param(self.head, 0)) == Some(spot(d, c)),
            crate::ir::get(a.vals, self.end) == Some(spot(d, d.len() as int)),
        ensures
            crate::ir::goes(m, q, a, t),
            crate::ir::keeps(self.p, a, t),
            t.world == a.world,
            t.block == self.cont,
            t.at == 0,
            crate::ir::get(t.vals, Value::Param(self.cont, 0)) == Some(
                spot(d, crate::scan::space_end(d, c)),
            ),
        decreases d.len() - c,
    {
        let b = self.lemma_head(m, q, a, d, c);
        if c >= d.len() {
            return b;
        }
        let e = self.lemma_chk(m, q, b, d, c);
        crate::ir::go_on(m, q, self.p, a, b, self.p, e);
        if !crate::scan::is_space(d[c]) {
            return e;
        }
        let t = self.lemma_loop(m, q, e, d, c + 1);
        crate::ir::go_on(m, q, self.p, a, e, self.p, t);
        t
    }
}

/// Adds the code that moves a cursor past white space.
#[verifier::spinoff_prover]
#[verifier::rlimit(60)]
pub fn ws(f: &mut FuncIr, cur: Value, end: Value) -> (r: Value)
    requires
        crate::ir::open_at(old(f).point()),
        crate::ir::size_at(old(f).point()) <= usize::MAX,
        crate::ir::built(old(f)@, cur),
        crate::ir::built(old(f)@, end),
    ensures
        crate::binder::advanced(old(f).point(), final(f).point()),
        crate::ir::built(final(f)@, r),
        crate::lower::sized(final(f)@, r, 8),
        crate::tidy::adds(old(f).point(), final(f).point(), 23),
        skips_space(old(f).point(), final(f).point(), cur, end, r),
{
    let ghost p = f.point();
    proof {
        crate::ir::lemma_laid_none(p);
    }
    let head: usize = f.create_block(1);
    let chk: usize = f.create_block(1);
    let cont: usize = f.create_block(1);
    let ghost z = f.point();
    f.end(Term::Jump(Target { block: head, args: Args::One(cur) }));
    f.switch_to(head);
    let ghost h = f.point();
    let c: Value = Value::Param(head, 0);
    let inb: Value = f.emit(Inst::Test(Cc::Ult, c, end));
    let ghost h1 = f.point();
    f.end(
        Term::Brif(
            inb,
            Target { block: chk, args: Args::One(c) },
            Target { block: cont, args: Args::One(c) },
        ),
    );
    f.switch_to(chk);
    let ghost k = f.point();
    let c: Value = Value::Param(chk, 0);
    let byte: Value = load_u8(f, c);
    let e1: Value = f.emit(Inst::TestImm(Cc::Equal, byte, SPACE as i64));
    let e2: Value = f.emit(Inst::TestImm(Cc::Equal, byte, LF as i64));
    let e3: Value = f.emit(Inst::TestImm(Cc::Equal, byte, TAB as i64));
    let e4: Value = f.emit(Inst::TestImm(Cc::Equal, byte, CR as i64));
    let o12: Value = f.emit(Inst::Bor(e1, e2));
    let o34: Value = f.emit(Inst::Bor(e3, e4));
    let is_ws: Value = f.emit(Inst::Bor(o12, o34));
    let c1: Value = f.emit(Inst::IaddImm(c, 1));
    let ghost k1 = f.point();
    f.end(
        Term::Brif(
            is_ws,
            Target { block: head, args: Args::One(c1) },
            Target { block: cont, args: Args::One(c) },
        ),
    );
    f.switch_to(cont);
    let r: Value = Value::Param(cont, 0);
    let ghost to = f.point();
    let ghost w = SpaceCode { end, head, chk, cont, p: p.f, h, h1, k, k1 };
    proof {
        crate::ir::lemma_carried(p, to);
        assert(crate::ir::laid(to.f, h, w.head_line()));
        assert(crate::ir::laid(to.f, k, w.chk_line()));
        assert(w.wf());
        assert forall|m: Seq<FuncV>, q: FuncV, s: State| #[trigger]
            ready_at(m, q, s, p, to, cur, end) implies crate::ir::computes(
            m,
            q,
            s,
            p.f,
            to,
            r,
            spot(data(s, end), crate::scan::space_end(data(s, end), pos(s, cur))),
            s.world,
        ) by {
            crate::ir::lemma_has_all(to.f, q);
            assert(w.stands_in(q));
            let first = Target { block: head, args: Args::One(cur) };
            crate::ir::lemma_goes_refl(m, q, s);
            let a = crate::ir::goto(m, q, p.f, s, s, z, Term::Jump(first), first);
            let t = w.lemma_loop(m, q, a, data(s, end), pos(s, cur));
            crate::ir::go_on(m, q, p.f, s, a, p.f, t);
        }
    }
    r
}

/// Adds the code that reads the byte at a cursor.
pub fn load_u8(f: &mut FuncIr, addr: Value) -> (r: Value)
    requires
        crate::ir::open_at(old(f).point()),
        crate::ir::built(old(f)@, addr),
    ensures
        crate::binder::advanced(old(f).point(), final(f).point()),
        crate::ir::built(final(f)@, r),
        crate::lower::sized(final(f)@, r, 8),
        crate::tidy::adds(old(f).point(), final(f).point(), 2),
        final(f).cur == old(f).cur,
        crate::ir::size_at(final(f).point()) == crate::ir::size_at(old(f).point()) + 2,
        forall|o: Point, line: Seq<Inst>| #[trigger]
            crate::ir::laid(old(f)@, o, line) && o.cur == old(f).cur && crate::ir::size_at(o)
                + line.len() == crate::ir::size_at(old(f).point()) ==> crate::ir::laid(
                final(f)@,
                o,
                line.push(Inst::Load { width: 1, addr, off: 0 }).push(
                    Inst::Uextend(crate::ir::slot(o, line.len() as int)),
                ),
            ) && r == crate::ir::slot(o, line.len() as int + 1),
{
    let v: Value = f.emit(Inst::Load { width: 1, addr, off: 0 });
    let r: Value = f.emit(Inst::Uextend(v));
    r
}

} // verus!
