//! Code that reads an integer from raw JSON.
use crate::ascii::{MINUS, PLUS, ZERO};
use crate::cursor::{load_u8, ws};
use crate::ir::{Args, Cc, FuncIr, FuncV, Inst, Point, State, Target, Term, Val, Value};
use crate::steps::Line;
use vstd::prelude::*;

verus! {

/// Whether the code between two points reads the integer at a cursor: its value,
/// and the cursor after it.
pub open spec fn reads_int(
    p: Point,
    to: Point,
    cur: Value,
    end: Value,
    signed: bool,
    val: Value,
    after: Value,
) -> bool {
    forall|m: Seq<FuncV>, q: FuncV, s: State| #[trigger]
        ready_int(m, q, s, p, to, cur, end, signed) ==> int_read(
            m,
            q,
            s,
            p,
            to,
            cur,
            end,
            signed,
            val,
            after,
        )
}

pub open spec fn ready_int(
    m: Seq<FuncV>,
    q: FuncV,
    s: State,
    p: Point,
    to: Point,
    cur: Value,
    end: Value,
    signed: bool,
) -> bool {
    &&& crate::cursor::ready_at(m, q, s, p, to, cur, end)
    &&& crate::scan::int_at(crate::cursor::data(s, end), crate::cursor::pos(s, cur), signed) is Some
}

pub open spec fn int_read(
    m: Seq<FuncV>,
    q: FuncV,
    s: State,
    p: Point,
    to: Point,
    cur: Value,
    end: Value,
    signed: bool,
    val: Value,
    after: Value,
) -> bool {
    exists|t: State| #[trigger]
        crate::ir::goes(m, q, s, t) && int_found(s, t, p, to, cur, end, signed, val, after)
}

pub open spec fn int_found(
    s: State,
    t: State,
    p: Point,
    to: Point,
    cur: Value,
    end: Value,
    signed: bool,
    val: Value,
    after: Value,
) -> bool {
    let d = crate::cursor::data(s, end);
    let (x, e) = crate::scan::int_at(d, crate::cursor::pos(s, cur), signed)->0;
    &&& crate::ir::stands(t, to)
    &&& crate::ir::keeps(p.f, s, t)
    &&& t.world == s.world
    &&& crate::ir::get(t.vals, val) == Some(Val::Int(x))
    &&& crate::ir::get(t.vals, after) == Some(crate::cursor::spot(d, e))
}

/// The state that the code comes to.
pub proof fn int_got(
    m: Seq<FuncV>,
    q: FuncV,
    s: State,
    p: Point,
    to: Point,
    cur: Value,
    end: Value,
    signed: bool,
    val: Value,
    after: Value,
) -> (t: State)
    requires
        int_read(m, q, s, p, to, cur, end, signed, val, after),
    ensures
        crate::ir::goes(m, q, s, t),
        int_found(s, t, p, to, cur, end, signed, val, after),
{
    choose|t: State| #[trigger]
        crate::ir::goes(m, q, s, t) && int_found(s, t, p, to, cur, end, signed, val, after)
}

/// The instruction that tells whether there is a minus.
pub open spec fn minus_inst(byte: Value, signed: bool) -> Inst {
    if signed {
        Inst::TestImm(Cc::Equal, byte, MINUS as i64)
    } else {
        Inst::False
    }
}

/// The code before the digits: past a sign.
pub open spec fn sign_line(p: Point, c: Value, signed: bool) -> Seq<Inst> {
    let byte = crate::ir::slot(p, 1);
    Seq::empty()
        .push(Inst::Load { width: 1, addr: c, off: 0 })
        .push(Inst::Uextend(crate::ir::slot(p, 0)))
        .push(minus_inst(byte, signed))
        .push(Inst::TestImm(Cc::Equal, byte, PLUS as i64))
        .push(Inst::Bor(crate::ir::slot(p, 2), crate::ir::slot(p, 3)))
        .push(Inst::IaddImm(c, 1))
        .push(Inst::Select(crate::ir::slot(p, 4), crate::ir::slot(p, 5), c))
        .push(Inst::Iconst(0))
}

/// The points of the code that reads digits.
pub struct DigitCode {
    pub end: Value,
    pub head: usize,
    pub chk: usize,
    pub done: usize,
    pub p: FuncV,
    /// The start and the end of the head, and of the check.
    pub h: Point,
    pub h1: Point,
    pub k: Point,
    pub k1: Point,
}

/// Whether a block's two parameters are a cursor and a number.
pub open spec fn params_are(a: State, b: usize, d: Seq<u8>, c: int, x: int) -> bool {
    &&& crate::ir::get(a.vals, Value::Param(b, 0)) == Some(crate::cursor::spot(d, c))
    &&& crate::ir::get(a.vals, Value::Param(b, 1)) == Some(Val::Int(x))
}

impl DigitCode {
    pub open spec fn head_line(self) -> Seq<Inst> {
        Seq::empty().push(Inst::Test(Cc::Ult, Value::Param(self.head, 0), self.end))
    }

    pub open spec fn head_end(self) -> Term {
        let both = Args::Two(Value::Param(self.head, 0), Value::Param(self.head, 1));
        Term::Brif(
            crate::ir::slot(self.h, 0),
            Target { block: self.chk, args: both },
            Target { block: self.done, args: both },
        )
    }

    pub open spec fn chk_line(self) -> Seq<Inst> {
        let c = Value::Param(self.chk, 0);
        let v = Value::Param(self.chk, 1);
        Seq::empty()
            .push(Inst::Load { width: 1, addr: c, off: 0 })
            .push(Inst::Uextend(crate::ir::slot(self.k, 0)))
            .push(Inst::IaddImm(crate::ir::slot(self.k, 1), -48i64))
            .push(Inst::TestImm(Cc::Ult, crate::ir::slot(self.k, 2), 10))
            .push(Inst::ImulImm(v, 10))
            .push(Inst::Iadd(crate::ir::slot(self.k, 4), crate::ir::slot(self.k, 2)))
            .push(Inst::IaddImm(c, 1))
    }

    pub open spec fn chk_end(self) -> Term {
        Term::Brif(
            crate::ir::slot(self.k, 3),
            Target {
                block: self.head,
                args: Args::Two(crate::ir::slot(self.k, 6), crate::ir::slot(self.k, 5)),
            },
            Target {
                block: self.done,
                args: Args::Two(Value::Param(self.chk, 0), Value::Param(self.chk, 1)),
            },
        )
    }

    /// Whether a function has that code.
    pub open spec fn stands_in(self, q: FuncV) -> bool {
        &&& crate::ir::laid(q, self.h, self.head_line())
        &&& crate::ir::sealed(q, self.h1, self.head_end())
        &&& crate::ir::laid(q, self.k, self.chk_line())
        &&& crate::ir::sealed(q, self.k1, self.chk_end())
        &&& crate::ir::takes(q, self.head, 2)
        &&& crate::ir::takes(q, self.chk, 2)
        &&& crate::ir::takes(q, self.done, 2)
    }

    pub open spec fn wf(self) -> bool {
        &&& self.head >= self.p.blocks.len()
        &&& self.chk >= self.p.blocks.len()
        &&& self.done >= self.p.blocks.len()
        &&& self.h.cur == self.head
        &&& self.h1.cur == self.head
        &&& crate::ir::size_at(self.h) == 0
        &&& crate::ir::size_at(self.h1) == 1
        &&& self.k.cur == self.chk
        &&& self.k1.cur == self.chk
        &&& crate::ir::size_at(self.k) == 0
        &&& crate::ir::size_at(self.k1) == 7
        &&& crate::ir::open_at(self.h)
        &&& crate::ir::open_at(self.k)
        &&& crate::ir::extends(self.p, self.h.f)
        &&& crate::ir::extends(self.p, self.k.f)
        &&& crate::ir::built(self.p, self.end)
        &&& crate::ir::built(self.h.f, Value::Param(self.head, 0))
        &&& crate::ir::built(self.h.f, Value::Param(self.head, 1))
        &&& crate::ir::built(self.k.f, Value::Param(self.chk, 0))
        &&& crate::ir::built(self.k.f, Value::Param(self.chk, 1))
    }

    /// The head goes to the check where there is a byte, and out otherwise.
    proof fn lemma_head(self, m: Seq<FuncV>, q: FuncV, a: State, d: Seq<u8>, c: int, x: int) -> (t:
        State)
        requires
            self.wf(),
            self.stands_in(q),
            a.block == self.head,
            a.at == 0,
            params_are(a, self.head, d, c, x),
            crate::ir::get(a.vals, self.end) == Some(crate::cursor::spot(d, d.len() as int)),
        ensures
            crate::ir::goes(m, q, a, t),
            crate::ir::keeps(self.p, a, t),
            t.world == a.world,
            t.at == 0,
            c < d.len() ==> t.block == self.chk && params_are(t, self.chk, d, c, x),
            c >= d.len() ==> t.block == self.done && params_are(t, self.done, d, c, x),
    {
        let g = Line { m, q, p0: self.p, s0: a, o: self.h, l: self.head_line() };
        crate::ir::lemma_goes_refl(m, q, a);
        let b = g.test(a, 0, crate::ir::truth(c < d.len()));
        let to = Target {
            block: (if c < d.len() {
                self.chk
            } else {
                self.done
            }),
            args: Args::Two(Value::Param(self.head, 0), Value::Param(self.head, 1)),
        };
        crate::ir::goto(m, q, self.p, a, b, self.h1, self.head_end(), to)
    }

    /// The check takes a digit in and goes back, and goes out at anything else.
    proof fn lemma_chk(self, m: Seq<FuncV>, q: FuncV, a: State, d: Seq<u8>, c: int, x: int) -> (t:
        State)
        requires
            self.wf(),
            self.stands_in(q),
            a.block == self.chk,
            a.at == 0,
            0 <= c < d.len(),
            0 <= x,
            params_are(a, self.chk, d, c, x),
        ensures
            crate::ir::goes(m, q, a, t),
            crate::ir::keeps(self.p, a, t),
            t.world == a.world,
            t.at == 0,
            crate::scan::is_digit(d[c]) ==> t.block == self.head && params_are(
                t,
                self.head,
                d,
                c + 1,
                (x * 10 + (d[c] - ZERO)) % 0x1_0000_0000_0000_0000,
            ),
            !crate::scan::is_digit(d[c]) ==> t.block == self.done && params_are(
                t,
                self.done,
                d,
                c,
                x,
            ),
    {
        let y = d[c];
        let v = Val::Int(y as int);
        let low = crate::ir::m64(y - 48);
        let digit = crate::scan::is_digit(y);
        let ten = crate::ir::m64(x * 10);
        let next = crate::ir::m64(ten + low);
        let g = Line { m, q, p0: self.p, s0: a, o: self.k, l: self.chk_line() };
        crate::ir::lemma_goes_refl(m, q, a);
        let b0 = g.load(a, 0, v);
        let b1 = g.uextend(b0, 1, v);
        assert(crate::ir::m64(y + crate::ir::m64(-48)) == low);
        let b2 = g.iadd_imm(b1, 2, Val::Int(low));
        assert(digit == (low < 10));
        let b3 = g.test_imm(b2, 3, crate::ir::truth(digit));
        let b4 = g.imul_imm(b3, 4, Val::Int(ten));
        let b5 = g.iadd(b4, 5, Val::Int(next));
        let b6 = g.iadd_imm(b5, 6, crate::cursor::spot(d, c + 1));
        let to = if digit {
            Target {
                block: self.head,
                args: Args::Two(crate::ir::slot(self.k, 6), crate::ir::slot(self.k, 5)),
            }
        } else {
            Target {
                block: self.done,
                args: Args::Two(Value::Param(self.chk, 0), Value::Param(self.chk, 1)),
            }
        };
        assert(digit ==> next == (x * 10 + (y - ZERO)) % 0x1_0000_0000_0000_0000);
        crate::ir::goto(m, q, self.p, a, b6, self.k1, self.chk_end(), to)
    }

    /// The loop takes all the digits in.
    proof fn lemma_loop(self, m: Seq<FuncV>, q: FuncV, a: State, d: Seq<u8>, c: int, x: int) -> (t:
        State)
        requires
            self.wf(),
            self.stands_in(q),
            a.block == self.head,
            a.at == 0,
            0 <= c,
            0 <= x,
            params_are(a, self.head, d, c, x),
            crate::ir::get(a.vals, self.end) == Some(crate::cursor::spot(d, d.len() as int)),
        ensures
            crate::ir::goes(m, q, a, t),
            crate::ir::keeps(self.p, a, t),
            t.world == a.world,
            t.block == self.done,
            t.at == 0,
            params_are(
                t,
                self.done,
                d,
                crate::scan::digit_end(d, c),
                crate::scan::digit_value(d, c, x),
            ),
        decreases d.len() + 2 - c,
    {
        let b = self.lemma_head(m, q, a, d, c, x);
        if c >= d.len() {
            return b;
        }
        let e = self.lemma_chk(m, q, b, d, c, x);
        crate::ir::go_on(m, q, self.p, a, b, self.p, e);
        if !crate::scan::is_digit(d[c]) {
            return e;
        }
        let next = (x * 10 + (d[c] - ZERO)) % 0x1_0000_0000_0000_0000;
        let t = self.lemma_loop(m, q, e, d, c + 1, next);
        crate::ir::go_on(m, q, self.p, a, e, self.p, t);
        t
    }
}

/// Gets past a sign.
proof fn lemma_sign(
    m: Seq<FuncV>,
    q: FuncV,
    p0: FuncV,
    s0: State,
    a: State,
    p: Point,
    c0: Value,
    signed: bool,
    line: Seq<Inst>,
    d: Seq<u8>,
    c: int,
) -> (t: State)
    requires
        line == sign_line(p, c0, signed),
        crate::ir::laid(q, p, line),
        crate::ir::open_at(p),
        crate::ir::extends(p0, p.f),
        crate::ir::goes(m, q, s0, a),
        crate::ir::keeps(p0, s0, a),
        crate::ir::stands(a, p),
        crate::ir::built(p.f, c0),
        crate::ir::get(a.vals, c0) == Some(crate::cursor::spot(d, c)),
        0 <= c < d.len(),
    ensures
        crate::ir::goes(m, q, s0, t),
        crate::ir::keeps(p0, s0, t),
        t.world == a.world,
        t.block == p.cur,
        t.at == crate::ir::size_at(p) + 8,
        crate::ir::get(t.vals, crate::ir::slot(p, 2)) == Some(
            crate::ir::truth(signed && d[c] == MINUS),
        ),
        crate::ir::get(t.vals, crate::ir::slot(p, 6)) == Some(
            crate::cursor::spot(
                d,
                if (signed && d[c] == MINUS) || d[c] == PLUS {
                    c + 1
                } else {
                    c
                },
            ),
        ),
        crate::ir::get(t.vals, crate::ir::slot(p, 7)) == Some(Val::Int(0)),
{
    let x = d[c];
    let v = Val::Int(x as int);
    let neg = signed && x == MINUS;
    let plus = x == PLUS;
    let g = Line { m, q, p0, s0, o: p, l: line };
    let b0 = g.load(a, 0, v);
    let b1 = g.uextend(b0, 1, v);
    let b2 = if signed {
        g.test_imm(b1, 2, crate::ir::truth(neg))
    } else {
        g.zero(b1, 2, crate::ir::truth(neg))
    };
    let b3 = g.test_imm(b2, 3, crate::ir::truth(plus));
    let b4 = g.bor(b3, 4, crate::ir::truth(neg || plus));
    let b5 = g.iadd_imm(b4, 5, crate::cursor::spot(d, c + 1));
    let first = if neg || plus {
        crate::cursor::spot(d, c + 1)
    } else {
        crate::cursor::spot(d, c)
    };
    let b6 = g.select(b5, 6, first);
    g.iconst(b6, 7, Val::Int(0))
}

/// The code after the digits: the negated number, and the choice.
pub open spec fn neg_line(e: Point, val: Value, neg: Value) -> Seq<Inst> {
    Seq::empty().push(Inst::Ineg(val)).push(Inst::Select(neg, crate::ir::slot(e, 0), val))
}

/// The whole: past white space and a sign, through the digits, and the sign put
/// to them.
#[verifier::spinoff_prover]
#[verifier::rlimit(40)]
proof fn lemma_int(
    m: Seq<FuncV>,
    q: FuncV,
    s: State,
    p: Point,
    p1: Point,
    z: Point,
    c: DigitCode,
    e: Point,
    line: Seq<Inst>,
    to: Point,
    cur: Value,
    end: Value,
    signed: bool,
    c0: Value,
    val: Value,
)
    requires
        c.wf(),
        c.stands_in(q),
        crate::cursor::skips_space(p, p1, cur, end, c0),
        line == sign_line(p1, c0, signed),
        crate::ir::laid(q, p1, line),
        crate::ir::open_at(p1),
        crate::ir::extends(p.f, p1.f),
        crate::ir::extends(p1.f, q),
        crate::ir::extends(p1.f, c.p),
        crate::ir::built(p.f, end),
        crate::ir::built(p1.f, c0),
        c.end == end,
        crate::ir::built(c.p, crate::ir::slot(p1, 2)),
        z.cur == p1.cur,
        crate::ir::size_at(z) == crate::ir::size_at(p1) + 8,
        crate::ir::sealed(
            q,
            z,
            Term::Jump(
                Target {
                    block: c.head,
                    args: Args::Two(crate::ir::slot(p1, 6), crate::ir::slot(p1, 7)),
                },
            ),
        ),
        e.cur == c.done,
        crate::ir::size_at(e) == 0,
        crate::ir::open_at(e),
        crate::ir::extends(c.p, e.f),
        crate::ir::built(e.f, Value::Param(c.done, 0)),
        crate::ir::built(e.f, Value::Param(c.done, 1)),
        signed ==> crate::ir::laid(
            q,
            e,
            neg_line(e, Value::Param(c.done, 1), crate::ir::slot(p1, 2)),
        ) && val == crate::ir::slot(e, 1) && crate::ir::size_at(to) == 2,
        !signed ==> val == Value::Param(c.done, 1) && crate::ir::size_at(to) == 0,
        to.cur == c.done,
        ready_int(m, q, s, p, to, cur, end, signed),
    ensures
        int_read(m, q, s, p, to, cur, end, signed, val, Value::Param(c.done, 0)),
{
    let d = crate::cursor::data(s, end);
    let at = crate::cursor::pos(s, cur);
    crate::scan::lemma_space_end(d, at);
    assert(crate::cursor::ready_at(m, q, s, p, p1, cur, end));
    let start = crate::scan::space_end(d, at);
    let neg = signed && d[start] == MINUS;
    let first = if neg || d[start] == PLUS {
        start + 1
    } else {
        start
    };
    crate::scan::lemma_digits(d, first, 0);
    let x = crate::scan::digit_value(d, first, 0);
    let last = crate::scan::digit_end(d, first);
    let a = crate::ir::computed(
        m,
        q,
        s,
        p.f,
        p1,
        c0,
        crate::cursor::spot(d, start),
        s.world,
    );
    let b = lemma_sign(m, q, p.f, s, a, p1, c0, signed, line, d, start);
    let head = Target {
        block: c.head,
        args: Args::Two(crate::ir::slot(p1, 6), crate::ir::slot(p1, 7)),
    };
    crate::ir::lemma_extends_trans(p.f, p1.f, c.p);
    let i = crate::ir::goto(m, q, p.f, s, b, z, Term::Jump(head), head);
    assert(crate::ir::get(i.vals, end) == crate::ir::get(s.vals, end));
    assert(crate::ir::get(i.vals, crate::ir::slot(p1, 2)) == Some(crate::ir::truth(neg)));
    let u = c.lemma_loop(m, q, i, d, first, 0);
    crate::ir::go_on(m, q, p.f, s, i, c.p, u);
    let after = Value::Param(c.done, 0);
    if signed {
        crate::ir::lemma_extends_trans(p.f, c.p, e.f);
        let g = Line {
            m,
            q,
            p0: p.f,
            s0: s,
            o: e,
            l: neg_line(e, Value::Param(c.done, 1), crate::ir::slot(p1, 2)),
        };
        crate::ir::lemma_built(c.p, e.f, crate::ir::slot(p1, 2));
        let w = g.ineg(u, 0, Val::Int(crate::ir::m64(-x)));
        let got = if neg {
            crate::ir::m64(-x)
        } else {
            x
        };
        let t = g.select(w, 1, Val::Int(got));
        assert(int_found(s, t, p, to, cur, end, signed, val, after));
    } else {
        assert(int_found(s, u, p, to, cur, end, signed, val, after));
    }
}

/// Adds the code that reads the integer at a cursor: its value, and the cursor
/// after it.
#[verifier::spinoff_prover]
#[verifier::rlimit(100)]
pub fn intval(f: &mut FuncIr, cur: Value, end: Value, signed: bool) -> (r: (Value, Value))
    requires
        crate::ir::open_at(old(f).point()),
        crate::ir::size_at(old(f).point()) <= usize::MAX,
        crate::ir::built(old(f)@, cur),
        crate::ir::built(old(f)@, end),
    ensures
        crate::lower::sized(final(f)@, r.0, 8),
        crate::lower::sized(final(f)@, r.1, 8),
        crate::tidy::adds(old(f).point(), final(f).point(), 80),
        crate::binder::advanced(old(f).point(), final(f).point()),
        crate::ir::built(final(f)@, r.0),
        crate::ir::built(final(f)@, r.1),
        reads_int(old(f).point(), final(f).point(), cur, end, signed, r.0, r.1),
{
    let ghost p = f.point();
    proof {
        crate::ir::lemma_laid_none(p);
    }
    let c0: Value = ws(f, cur, end);
    let ghost p1 = f.point();
    proof {
        crate::ir::lemma_laid_none(p1);
    }
    let b0: Value = load_u8(f, c0);
    let neg: Value = if signed {
        f.emit(Inst::TestImm(Cc::Equal, b0, MINUS as i64))
    } else {
        f.emit(Inst::False)
    };
    let is_plus: Value = f.emit(Inst::TestImm(Cc::Equal, b0, PLUS as i64));
    let is_sign: Value = f.emit(Inst::Bor(neg, is_plus));
    let c1: Value = f.emit(Inst::IaddImm(c0, 1));
    let first: Value = f.emit(Inst::Select(is_sign, c1, c0));
    let zero: Value = f.emit(Inst::Iconst(0));
    let ghost line = sign_line(p1, c0, signed);
    let ghost p2 = f.point();
    assert(crate::ir::laid(f@, p1, line));
    assert(crate::ir::extends(p2.f, p2.f));
    let head: usize = f.create_block(2);
    let chk: usize = f.create_block(2);
    let done: usize = f.create_block(2);
    let ghost z = f.point();
    f.end(Term::Jump(Target { block: head, args: Args::Two(first, zero) }));
    f.switch_to(head);
    let ghost h = f.point();
    let c: Value = Value::Param(head, 0);
    let v: Value = Value::Param(head, 1);
    let inb: Value = f.emit(Inst::Test(Cc::Ult, c, end));
    let ghost h1 = f.point();
    f.end(
        Term::Brif(
            inb,
            Target { block: chk, args: Args::Two(c, v) },
            Target { block: done, args: Args::Two(c, v) },
        ),
    );
    f.switch_to(chk);
    let ghost k = f.point();
    let c: Value = Value::Param(chk, 0);
    let v: Value = Value::Param(chk, 1);
    let byte: Value = load_u8(f, c);
    let digit: Value = f.emit(Inst::IaddImm(byte, -48));
    let is_dig: Value = f.emit(Inst::TestImm(Cc::Ult, digit, 10));
    let v10: Value = f.emit(Inst::ImulImm(v, 10));
    let vn: Value = f.emit(Inst::Iadd(v10, digit));
    let c2: Value = f.emit(Inst::IaddImm(c, 1));
    let ghost k1 = f.point();
    f.end(
        Term::Brif(
            is_dig,
            Target { block: head, args: Args::Two(c2, vn) },
            Target { block: done, args: Args::Two(c, v) },
        ),
    );
    f.switch_to(done);
    let ghost e = f.point();
    let cend: Value = Value::Param(done, 0);
    let raw: Value = Value::Param(done, 1);
    let val: Value = if signed {
        let negd: Value = f.emit(Inst::Ineg(raw));
        f.emit(Inst::Select(neg, negd, raw))
    } else {
        raw
    };
    let ghost to = f.point();
    let ghost w = DigitCode { end, head, chk, done, p: p2.f, h, h1, k, k1 };
    proof {
        crate::ir::lemma_carried(p, to);
        assert(crate::ir::laid(to.f, p1, line));
        assert(crate::ir::laid(to.f, h, w.head_line()));
        assert(crate::ir::laid(to.f, k, w.chk_line()));
        assert(signed ==> crate::ir::laid(to.f, e, neg_line(e, raw, neg)));
        assert(w.wf());
        assert forall|m: Seq<FuncV>, q: FuncV, s: State| #[trigger]
            ready_int(m, q, s, p, to, cur, end, signed) implies int_read(
            m,
            q,
            s,
            p,
            to,
            cur,
            end,
            signed,
            val,
            cend,
        ) by {
            crate::ir::lemma_has_all(to.f, q);
            assert(w.stands_in(q));
            lemma_int(m, q, s, p, p1, z, w, e, line, to, cur, end, signed, c0, val);
        }
    }
    (val, cend)
}

} // verus!
