//! Code that finds a string in raw JSON, and code that compares one with a key.
use crate::ascii::{BACKSLASH, QUOTE};
use crate::cursor::{load_u8, ws};
use crate::ir::{Args, Cc, FuncIr, FuncV, Inst, Point, State, Target, Term, Val, Value};
use crate::steps::Line;
use vstd::prelude::*;

verus! {

/// Whether the code between two points finds the string at a cursor: where it
/// starts, how long it is, and the cursor after it.
pub open spec fn spans(
    p: Point,
    to: Point,
    cur: Value,
    end: Value,
    start: Value,
    len: Value,
    after: Value,
) -> bool {
    forall|m: Seq<FuncV>, q: FuncV, s: State| #[trigger]
        crate::cursor::ready_at(m, q, s, p, to, cur, end) ==> spanned(
            m,
            q,
            s,
            p,
            to,
            cur,
            end,
            start,
            len,
            after,
        )
}

pub open spec fn spanned(
    m: Seq<FuncV>,
    q: FuncV,
    s: State,
    p: Point,
    to: Point,
    cur: Value,
    end: Value,
    start: Value,
    len: Value,
    after: Value,
) -> bool {
    exists|t: State| #[trigger]
        crate::ir::goes(m, q, s, t) && span_found(s, t, p, to, cur, end, start, len, after)
}

pub open spec fn span_found(
    s: State,
    t: State,
    p: Point,
    to: Point,
    cur: Value,
    end: Value,
    start: Value,
    len: Value,
    after: Value,
) -> bool {
    let d = crate::cursor::data(s, end);
    let (first, quote) = crate::scan::span(d, crate::cursor::pos(s, cur));
    &&& crate::ir::stands(t, to)
    &&& crate::ir::keeps(p.f, s, t)
    &&& t.world == s.world
    &&& crate::ir::get(t.vals, start) == Some(crate::cursor::spot(d, first))
    &&& crate::ir::get(t.vals, len) == Some(Val::Int(quote - first))
    &&& crate::ir::get(t.vals, after) == Some(crate::cursor::spot(d, quote + 1))
}

/// The state that the code comes to.
pub proof fn found(
    m: Seq<FuncV>,
    q: FuncV,
    s: State,
    p: Point,
    to: Point,
    cur: Value,
    end: Value,
    start: Value,
    len: Value,
    after: Value,
) -> (t: State)
    requires
        spanned(m, q, s, p, to, cur, end, start, len, after),
    ensures
        crate::ir::goes(m, q, s, t),
        span_found(s, t, p, to, cur, end, start, len, after),
{
    choose|t: State| #[trigger]
        crate::ir::goes(m, q, s, t) && span_found(s, t, p, to, cur, end, start, len, after)
}

/// The points of the code that looks for the closing quote.
pub struct SpanCode {
    pub end: Value,
    pub start: Value,
    pub head: usize,
    pub chk: usize,
    pub done: usize,
    pub p: FuncV,
    /// The start and the end of the head, and of the check; the start of what
    /// follows the loop.
    pub h: Point,
    pub h1: Point,
    pub k: Point,
    pub k1: Point,
    pub e: Point,
}

impl SpanCode {
    pub open spec fn head_line(self) -> Seq<Inst> {
        Seq::empty().push(Inst::Test(Cc::Ult, Value::Param(self.head, 0), self.end))
    }

    pub open spec fn head_end(self) -> Term {
        let c = Value::Param(self.head, 0);
        Term::Brif(
            crate::ir::slot(self.h, 0),
            Target { block: self.chk, args: Args::One(c) },
            Target { block: self.done, args: Args::One(c) },
        )
    }

    pub open spec fn chk_line(self) -> Seq<Inst> {
        let c = Value::Param(self.chk, 0);
        let byte = crate::ir::slot(self.k, 1);
        Seq::empty()
            .push(Inst::Load { width: 1, addr: c, off: 0 })
            .push(Inst::Uextend(crate::ir::slot(self.k, 0)))
            .push(Inst::TestImm(Cc::Equal, byte, QUOTE as i64))
            .push(Inst::TestImm(Cc::Equal, byte, BACKSLASH as i64))
            .push(Inst::IaddImm(c, 1))
            .push(Inst::IaddImm(c, 2))
            .push(
                Inst::Select(
                    crate::ir::slot(self.k, 3),
                    crate::ir::slot(self.k, 5),
                    crate::ir::slot(self.k, 4),
                ),
            )
    }

    pub open spec fn chk_end(self) -> Term {
        Term::Brif(
            crate::ir::slot(self.k, 2),
            Target { block: self.done, args: Args::One(Value::Param(self.chk, 0)) },
            Target { block: self.head, args: Args::One(crate::ir::slot(self.k, 6)) },
        )
    }

    pub open spec fn done_line(self) -> Seq<Inst> {
        let c = Value::Param(self.done, 0);
        Seq::empty().push(Inst::Isub(c, self.start)).push(Inst::IaddImm(c, 1))
    }

    /// Whether a function has that code.
    pub open spec fn stands_in(self, q: FuncV) -> bool {
        &&& crate::ir::laid(q, self.h, self.head_line())
        &&& crate::ir::sealed(q, self.h1, self.head_end())
        &&& crate::ir::laid(q, self.k, self.chk_line())
        &&& crate::ir::sealed(q, self.k1, self.chk_end())
        &&& crate::ir::laid(q, self.e, self.done_line())
        &&& crate::ir::takes(q, self.head, 1)
        &&& crate::ir::takes(q, self.chk, 1)
        &&& crate::ir::takes(q, self.done, 1)
    }

    pub open spec fn wf(self) -> bool {
        &&& self.head >= self.p.blocks.len()
        &&& self.chk >= self.p.blocks.len()
        &&& self.done >= self.p.blocks.len()
        &&& self.h.cur == self.head
        &&& self.h1.cur == self.head
        &&& crate::ir::size_at(self.h) == 0
        &&& crate::ir::size_at(self.h1) == 1
        &&& self.k.cur == self.chk
        &&& self.k1.cur == self.chk
        &&& crate::ir::size_at(self.k) == 0
        &&& crate::ir::size_at(self.k1) == 7
        &&& self.e.cur == self.done
        &&& crate::ir::size_at(self.e) == 0
        &&& crate::ir::open_at(self.h)
        &&& crate::ir::open_at(self.k)
        &&& crate::ir::open_at(self.e)
        &&& crate::ir::extends(self.p, self.h.f)
        &&& crate::ir::extends(self.p, self.k.f)
        &&& crate::ir::extends(self.p, self.e.f)
        &&& crate::ir::built(self.p, self.end)
        &&& crate::ir::built(self.p, self.start)
        &&& crate::ir::built(self.h.f, Value::Param(self.head, 0))
        &&& crate::ir::built(self.k.f, Value::Param(self.chk, 0))
        &&& crate::ir::built(self.e.f, Value::Param(self.done, 0))
    }

    /// The head goes to the check where there is a byte, and out otherwise.
    proof fn lemma_head(self, m: Seq<FuncV>, q: FuncV, a: State, d: Seq<u8>, c: int) -> (t: State)
        requires
            self.wf(),
            self.stands_in(q),
            a.block == self.head,
            a.at == 0,
            crate::ir::get(a.vals, Value::Param(self.head, 0)) == Some(crate::cursor::spot(d, c)),
            crate::ir::get(a.vals, self.end) == Some(crate::cursor::spot(d, d.len() as int)),
        ensures
            crate::ir::goes(m, q, a, t),
            crate::ir::keeps(self.p, a, t),
            t.world == a.world,
            t.at == 0,
            c < d.len() ==> t.block == self.chk && crate::ir::get(
                t.vals,
                Value::Param(self.chk, 0),
            ) == Some(crate::cursor::spot(d, c)),
            c >= d.len() ==> t.block == self.done && crate::ir::get(
                t.vals,
                Value::Param(self.done, 0),
            ) == Some(crate::cursor::spot(d, c)),
    {
        let g = Line { m, q, p0: self.p, s0: a, o: self.h, l: self.head_line() };
        crate::ir::lemma_goes_refl(m, q, a);
        let b = g.test(a, 0, crate::ir::truth(c < d.len()));
        let to = Target {
            block: (if c < d.len() {
                self.chk
            } else {
                self.done
            }),
            args: Args::One(Value::Param(self.head, 0)),
        };
        crate::ir::goto(m, q, self.p, a, b, self.h1, self.head_end(), to)
    }

    /// The check goes out at a quote, and on otherwise, past what is escaped.
    proof fn lemma_chk(self, m: Seq<FuncV>, q: FuncV, a: State, d: Seq<u8>, c: int) -> (t: State)
        requires
            self.wf(),
            self.stands_in(q),
            a.block == self.chk,
            a.at == 0,
            0 <= c < d.len(),
            crate::ir::get(a.vals, Value::Param(self.chk, 0)) == Some(crate::cursor::spot(d, c)),
        ensures
            crate::ir::goes(m, q, a, t),
            crate::ir::keeps(self.p, a, t),
            t.world == a.world,
            t.at == 0,
            d[c] != QUOTE ==> t.block == self.head && crate::ir::get(
                t.vals,
                Value::Param(self.head, 0),
            ) == Some(
                crate::cursor::spot(
                    d,
                    if d[c] == BACKSLASH {
                        c + 2
                    } else {
                        c + 1
                    },
                ),
            ),
            d[c] == QUOTE ==> t.block == self.done && crate::ir::get(
                t.vals,
                Value::Param(self.done, 0),
            ) == Some(crate::cursor::spot(d, c)),
    {
        let x = d[c];
        let v = Val::Int(x as int);
        let one = crate::cursor::spot(d, c + 1);
        let two = crate::cursor::spot(d, c + 2);
        let g = Line { m, q, p0: self.p, s0: a, o: self.k, l: self.chk_line() };
        crate::ir::lemma_goes_refl(m, q, a);
        let b0 = g.load(a, 0, v);
        let b1 = g.uextend(b0, 1, v);
        let b2 = g.test_imm(b1, 2, crate::ir::truth(x == QUOTE));
        let b3 = g.test_imm(b2, 3, crate::ir::truth(x == BACKSLASH));
        let b4 = g.iadd_imm(b3, 4, one);
        let b5 = g.iadd_imm(b4, 5, two);
        let next = if x == BACKSLASH {
            two
        } else {
            one
        };
        let b6 = g.select(b5, 6, next);
        let to = if x == QUOTE {
            Target { block: self.done, args: Args::One(Value::Param(self.chk, 0)) }
        } else {
            Target { block: self.head, args: Args::One(crate::ir::slot(self.k, 6)) }
        };
        crate::ir::goto(m, q, self.p, a, b6, self.k1, self.chk_end(), to)
    }

    /// The loop goes out at the closing quote.
    proof fn lemma_loop(self, m: Seq<FuncV>, q: FuncV, a: State, d: Seq<u8>, c: int) -> (t: State)
        requires
            self.wf(),
            self.stands_in(q),
            a.block == self.head,
            a.at == 0,
            0 <= c,
            crate::ir::get(a.vals, Value::Param(self.head, 0)) == Some(crate::cursor::spot(d, c)),
            crate::ir::get(a.vals, self.end) == Some(crate::cursor::spot(d, d.len() as int)),
        ensures
            crate::ir::goes(m, q, a, t),
            crate::ir::keeps(self.p, a, t),
            t.world == a.world,
            t.block == self.done,
            t.at == 0,
            crate::ir::get(t.vals, Value::Param(self.done, 0)) == Some(
                crate::cursor::spot(d, crate::scan::quote_at(d, c)),
            ),
        decreases d.len() + 2 - c,
    {
        let b = self.lemma_head(m, q, a, d, c);
        if c >= d.len() {
            return b;
        }
        let e = self.lemma_chk(m, q, b, d, c);
        crate::ir::go_on(m, q, self.p, a, b, self.p, e);
        if d[c] == QUOTE {
            return e;
        }
        let next = if d[c] == BACKSLASH {
            c + 2
        } else {
            c + 1
        };
        let t = self.lemma_loop(m, q, e, d, next);
        crate::ir::go_on(m, q, self.p, a, e, self.p, t);
        t
    }

    /// What follows the loop tells how long the string is.
    proof fn lemma_done(
        self,
        m: Seq<FuncV>,
        q: FuncV,
        a: State,
        d: Seq<u8>,
        first: int,
        quote: int,
    ) -> (t: State)
        requires
            self.wf(),
            self.stands_in(q),
            a.block == self.done,
            a.at == 0,
            0 <= quote - first < 0x1_0000_0000_0000_0000,
            crate::ir::get(a.vals, Value::Param(self.done, 0)) == Some(
                crate::cursor::spot(d, quote),
            ),
            crate::ir::get(a.vals, self.start) == Some(crate::cursor::spot(d, first)),
        ensures
            crate::ir::goes(m, q, a, t),
            crate::ir::keeps(self.p, a, t),
            t.world == a.world,
            t.block == self.done,
            t.at == 2,
            crate::ir::get(t.vals, crate::ir::slot(self.e, 0)) == Some(Val::Int(quote - first)),
            crate::ir::get(t.vals, crate::ir::slot(self.e, 1)) == Some(
                crate::cursor::spot(d, quote + 1),
            ),
    {
        let g = Line { m, q, p0: self.p, s0: a, o: self.e, l: self.done_line() };
        crate::ir::lemma_goes_refl(m, q, a);
        crate::ir::lemma_built(self.p, self.e.f, self.start);
        let b = g.isub(a, 0, Val::Int(quote - first));
        g.iadd_imm(b, 1, crate::cursor::spot(d, quote + 1))
    }
}

/// The whole: past white space and the opening quote, through the loop, and what
/// follows it.
proof fn lemma_span(
    m: Seq<FuncV>,
    q: FuncV,
    s: State,
    p: Point,
    p1: Point,
    z: Point,
    c: SpanCode,
    line: Seq<Inst>,
    to: Point,
    cur: Value,
    end: Value,
    c0: Value,
)
    requires
        c.wf(),
        c.stands_in(q),
        crate::cursor::skips_space(p, p1, cur, end, c0),
        line == Seq::empty().push(Inst::IaddImm(c0, 1)),
        crate::ir::laid(q, p1, line),
        crate::ir::open_at(p1),
        crate::ir::extends(p.f, p1.f),
        crate::ir::extends(p1.f, q),
        crate::ir::extends(p1.f, c.p),
        crate::ir::built(p.f, end),
        crate::ir::built(p1.f, c0),
        c.end == end,
        c.start == crate::ir::slot(p1, 0),
        z.cur == p1.cur,
        crate::ir::size_at(z) == crate::ir::size_at(p1) + 1,
        crate::ir::sealed(
            q,
            z,
            Term::Jump(Target { block: c.head, args: Args::One(crate::ir::slot(p1, 0)) }),
        ),
        to.cur == c.done,
        crate::ir::size_at(to) == 2,
        crate::cursor::ready_at(m, q, s, p, to, cur, end),
    ensures
        spanned(
            m,
            q,
            s,
            p,
            to,
            cur,
            end,
            c.start,
            crate::ir::slot(c.e, 0),
            crate::ir::slot(c.e, 1),
        ),
{
    let d = crate::cursor::data(s, end);
    let at = crate::cursor::pos(s, cur);
    let (first, quote) = crate::scan::span(d, at);
    crate::scan::lemma_space_end(d, at);
    crate::scan::lemma_quote_at(d, first);
    assert(crate::cursor::ready_at(m, q, s, p, p1, cur, end));
    let space = crate::cursor::spot(d, crate::scan::space_end(d, at));
    let a = crate::ir::computed(m, q, s, p.f, p1, c0, space, s.world);
    let g = Line { m, q, p0: p.f, s0: s, o: p1, l: line };
    let b = g.iadd_imm(a, 0, crate::cursor::spot(d, first));
    let head = Target { block: c.head, args: Args::One(crate::ir::slot(p1, 0)) };
    crate::ir::lemma_extends_trans(p.f, p1.f, c.p);
    let e = crate::ir::goto(m, q, p.f, s, b, z, Term::Jump(head), head);
    assert(crate::ir::get(e.vals, c.start) == Some(crate::cursor::spot(d, first)));
    assert(crate::ir::get(e.vals, end) == crate::ir::get(s.vals, end));
    let u = c.lemma_loop(m, q, e, d, first);
    crate::ir::go_on(m, q, p.f, s, e, c.p, u);
    assert(crate::ir::get(u.vals, c.start) == crate::ir::get(e.vals, c.start));
    let t = c.lemma_done(m, q, u, d, first, quote);
    crate::ir::go_on(m, q, p.f, s, u, c.p, t);
    assert(crate::ir::get(t.vals, c.start) == crate::ir::get(u.vals, c.start));
    assert(span_found(
        s,
        t,
        p,
        to,
        cur,
        end,
        c.start,
        crate::ir::slot(c.e, 0),
        crate::ir::slot(c.e, 1),
    ));
}

/// Adds the code that finds the string at a cursor: where it starts, how long it
/// is, and the cursor after it. Nothing is unescaped.
#[verifier::spinoff_prover]
#[verifier::rlimit(80)]
pub fn strspan(f: &mut FuncIr, cur: Value, end: Value) -> (r: (Value, Value, Value))
    requires
        crate::ir::open_at(old(f).point()),
        crate::ir::size_at(old(f).point()) <= usize::MAX,
        crate::ir::built(old(f)@, cur),
        crate::ir::built(old(f)@, end),
    ensures
        crate::binder::advanced(old(f).point(), final(f).point()),
        crate::ir::built(final(f)@, r.0),
        crate::ir::built(final(f)@, r.1),
        crate::ir::built(final(f)@, r.2),
        crate::lower::sized(final(f)@, r.0, 8),
        crate::lower::sized(final(f)@, r.1, 8),
        crate::lower::sized(final(f)@, r.2, 8),
        crate::tidy::adds(old(f).point(), final(f).point(), 60),
        spans(old(f).point(), final(f).point(), cur, end, r.0, r.1, r.2),
{
    let ghost p = f.point();
    proof {
        crate::ir::lemma_laid_none(p);
    }
    let c0: Value = ws(f, cur, end);
    let ghost p1 = f.point();
    proof {
        crate::ir::lemma_laid_none(p1);
    }
    let start: Value = f.emit(Inst::IaddImm(c0, 1));
    let ghost line = Seq::<Inst>::empty().push(Inst::IaddImm(c0, 1));
    let ghost p2 = f.point();
    assert(crate::ir::extends(p2.f, p2.f));
    let head: usize = f.create_block(1);
    let chk: usize = f.create_block(1);
    let done: usize = f.create_block(1);
    let ghost z = f.point();
    f.end(Term::Jump(Target { block: head, args: Args::One(start) }));
    f.switch_to(head);
    let ghost h = f.point();
    let c: Value = Value::Param(head, 0);
    let inb: Value = f.emit(Inst::Test(Cc::Ult, c, end));
    let ghost h1 = f.point();
    f.end(
        Term::Brif(
            inb,
            Target { block: chk, args: Args::One(c) },
            Target { block: done, args: Args::One(c) },
        ),
    );
    f.switch_to(chk);
    let ghost k = f.point();
    let c: Value = Value::Param(chk, 0);
    let byte: Value = load_u8(f, c);
    let is_quote: Value = f.emit(Inst::TestImm(Cc::Equal, byte, QUOTE as i64));
    let is_bs: Value = f.emit(Inst::TestImm(Cc::Equal, byte, BACKSLASH as i64));
    let q1: Value = f.emit(Inst::IaddImm(c, 1));
    let q2: Value = f.emit(Inst::IaddImm(c, 2));
    let qn: Value = f.emit(Inst::Select(is_bs, q2, q1));
    let ghost k1 = f.point();
    f.end(
        Term::Brif(
            is_quote,
            Target { block: done, args: Args::One(c) },
            Target { block: head, args: Args::One(qn) },
        ),
    );
    f.switch_to(done);
    let ghost e = f.point();
    let qend: Value = Value::Param(done, 0);
    let len: Value = f.emit(Inst::Isub(qend, start));
    let after: Value = f.emit(Inst::IaddImm(qend, 1));
    let ghost to = f.point();
    let ghost w = SpanCode { end, start, head, chk, done, p: p2.f, h, h1, k, k1, e };
    proof {
        crate::ir::lemma_carried(p, to);
        assert(crate::ir::laid(to.f, p1, line));
        assert(crate::ir::laid(to.f, h, w.head_line()));
        assert(crate::ir::laid(to.f, k, w.chk_line()));
        assert(crate::ir::laid(to.f, e, w.done_line()));
        assert(w.wf());
        assert forall|m: Seq<FuncV>, q: FuncV, s: State| #[trigger]
            crate::cursor::ready_at(m, q, s, p, to, cur, end) implies spanned(
            m,
            q,
            s,
            p,
            to,
            cur,
            end,
            start,
            len,
            after,
        ) by {
            crate::ir::lemma_has_all(to.f, q);
            assert(w.stands_in(q));
            lemma_span(m, q, s, p, p1, z, w, line, to, cur, end, c0);
        }
    }
    (start, len, after)
}

} // verus!
