//! Code that compares a span of raw JSON with a key: first the lengths, then,
//! where these agree, byte by byte, without a loop.
use crate::ir::{Args, Cc, FuncIr, FuncV, Inst, Point, State, Target, Term, Val, Value};
use crate::steps::Line;
use vstd::prelude::*;

verus! {

/// Whether the first `i` bytes from `at` on are those of a key.
pub open spec fn same(d: Seq<u8>, at: int, name: Seq<u8>, i: int) -> bool {
    forall|j: int| 0 <= j < i ==> d[at + j] == #[trigger] name[j]
}

/// Whether code goes from a state to one of two blocks, and nothing else has
/// changed.
pub open spec fn decided(
    m: Seq<FuncV>,
    q: FuncV,
    s: State,
    p: Point,
    b: bool,
    yes: usize,
    no: usize,
) -> bool {
    exists|t: State| #[trigger]
        crate::ir::goes(m, q, s, t) && at_choice(s, t, p, b, yes, no)
}

pub open spec fn at_choice(s: State, t: State, p: Point, b: bool, yes: usize, no: usize) -> bool {
    &&& crate::ir::keeps(p.f, s, t)
    &&& t.world == s.world
    &&& t.at == 0
    &&& t.block == (if b {
        yes
    } else {
        no
    })
}

/// The state that the code goes to.
pub proof fn chosen(
    m: Seq<FuncV>,
    q: FuncV,
    s: State,
    p: Point,
    b: bool,
    yes: usize,
    no: usize,
) -> (t: State)
    requires
        decided(m, q, s, p, b, yes, no),
    ensures
        crate::ir::goes(m, q, s, t),
        at_choice(s, t, p, b, yes, no),
{
    choose|t: State| #[trigger]
        crate::ir::goes(m, q, s, t) && at_choice(s, t, p, b, yes, no)
}

pub open spec fn ready_bytes(
    m: Seq<FuncV>,
    q: FuncV,
    s: State,
    p: Point,
    fin: FuncV,
    kp: Value,
    acc: Value,
    name: Seq<u8>,
    i: int,
    d: Seq<u8>,
    at: int,
) -> bool {
    &&& crate::ir::extends(fin, q)
    &&& crate::ir::stands(s, p)
    &&& crate::ir::get(s.vals, kp) == Some(crate::cursor::spot(d, at))
    &&& 0 <= at
    &&& at + name.len() <= d.len()
    &&& crate::ir::get(s.vals, acc) == Some(crate::ir::truth(same(d, at, name, i)))
}

/// Whether code compares the bytes from the `i`th on.
pub open spec fn compares_bytes(
    p: Point,
    fin: FuncV,
    kp: Value,
    acc: Value,
    name: Seq<u8>,
    i: int,
    yes: usize,
    no: usize,
) -> bool {
    forall|m: Seq<FuncV>, q: FuncV, s: State, d: Seq<u8>, at: int| #[trigger]
        ready_bytes(m, q, s, p, fin, kp, acc, name, i, d, at) ==> decided(
            m,
            q,
            s,
            p,
            same(d, at, name, name.len() as int),
            yes,
            no,
        )
}

/// Whether building has gone on, and what there was is kept.
pub open spec fn went_on(p: Point, q: Point) -> bool {
    &&& crate::ir::grows(p, q)
    &&& crate::ir::carried(p, q)
    &&& 0 <= q.cur < q.f.blocks.len()
    &&& q.f.blocks[q.cur].term is Some
    &&& crate::tidy::tidy(p) ==> crate::tidy::tidy(q)
    &&& crate::tidy::left(q) == crate::tidy::left(p) - 1
}

proof fn lemma_byte(
    m: Seq<FuncV>,
    q: FuncV,
    s: State,
    p: Point,
    p1: Point,
    fin: FuncV,
    kp: Value,
    acc: Value,
    name: Seq<u8>,
    i: int,
    d: Seq<u8>,
    at: int,
    yes: usize,
    no: usize,
    line: Seq<Inst>,
)
    requires
        0 <= i < name.len() <= i32::MAX,
        line == Seq::empty()
            .push(Inst::Load { width: 1, addr: kp, off: i as u64 })
            .push(Inst::Uextend(crate::ir::slot(p, 0)))
            .push(Inst::TestImm(Cc::Equal, crate::ir::slot(p, 1), name[i] as i64))
            .push(Inst::Band(acc, crate::ir::slot(p, 2))),
        crate::ir::laid(q, p, line),
        crate::ir::open_at(p),
        crate::ir::extends(p.f, p1.f),
        p1.cur == p.cur,
        crate::ir::size_at(p1) == crate::ir::size_at(p) + 4,
        crate::ir::built(p.f, kp),
        crate::ir::built(p.f, acc),
        crate::ir::extends(fin, q),
        compares_bytes(p1, fin, kp, crate::ir::slot(p, 3), name, i + 1, yes, no),
        ready_bytes(m, q, s, p, fin, kp, acc, name, i, d, at),
    ensures
        decided(m, q, s, p, same(d, at, name, name.len() as int), yes, no),
{
    let g = Line { m, q, p0: p.f, s0: s, o: p, l: line };
    g.begin(s);
    let x = d[at + i];
    let v = Val::Int(x as int);
    let a = g.load(s, 0, v);
    let b = g.uextend(a, 1, v);
    let c = g.test_imm(b, 2, crate::ir::truth(x == name[i]));
    assert(same(d, at, name, i + 1) == (same(d, at, name, i) && x == name[i])) by {
        if same(d, at, name, i + 1) {
            assert(d[at + i] == name[i]);
        }
    }
    let e = g.band(c, 3, crate::ir::truth(same(d, at, name, i + 1)));
    assert(ready_bytes(m, q, e, p1, fin, kp, crate::ir::slot(p, 3), name, i + 1, d, at));
    let t = chosen(m, q, e, p1, same(d, at, name, name.len() as int), yes, no);
    crate::ir::go_on(m, q, p.f, s, e, p1.f, t);
    assert(at_choice(s, t, p, same(d, at, name, name.len() as int), yes, no));
}

/// Adds the code that compares the bytes from the `i`th on, and ends the block.
#[verifier::spinoff_prover]
#[verifier::rlimit(40)]
fn keyeq_from(
    f: &mut FuncIr,
    kp: Value,
    acc: Value,
    name: &Vec<u8>,
    i: usize,
    yes: usize,
    no: usize,
)
    requires
        i <= name@.len() <= i32::MAX,
        crate::ir::open_at(old(f).point()),
        crate::ir::size_at(old(f).point()) <= usize::MAX,
        crate::ir::built(old(f)@, kp),
        crate::ir::built(old(f)@, acc),
        crate::ir::takes(old(f)@, yes, 0),
        crate::ir::takes(old(f)@, no, 0),
    ensures
        crate::tidy::adds(old(f).point(), final(f).point(), 8 * (name@.len() - i)),
        went_on(old(f).point(), final(f).point()),
        final(f).cur == old(f).cur,
        compares_bytes(old(f).point(), final(f)@, kp, acc, name@, i as int, yes, no),
    decreases name@.len() - i,
{
    let ghost p = f.point();
    proof {
        crate::ir::lemma_laid_none(p);
    }
    if i == name.len() {
        let term = Term::Brif(
            acc,
            Target { block: yes, args: Args::Zero },
            Target { block: no, args: Args::Zero },
        );
        f.end(term);
        let ghost fin = f@;
        proof {
            assert forall|m: Seq<FuncV>, q: FuncV, s: State, d: Seq<u8>, at: int| #[trigger]
                ready_bytes(m, q, s, p, fin, kp, acc, name@, i as int, d, at) implies decided(
                m,
                q,
                s,
                p,
                same(d, at, name@, name@.len() as int),
                yes,
                no,
            ) by {
                crate::ir::lemma_has_all(fin, q);
                let b = same(d, at, name@, name@.len() as int);
                let to = Target {
                    block: (if b {
                        yes
                    } else {
                        no
                    }),
                    args: Args::Zero,
                };
                crate::ir::lemma_goes_refl(m, q, s);
                let t = crate::ir::goto(m, q, p.f, s, s, p, term, to);
                assert(at_choice(s, t, p, b, yes, no));
            }
        }
        return ;
    }
    let raw: Value = f.emit(Inst::Load { width: 1, addr: kp, off: i as u64 });
    let byte: Value = f.emit(Inst::Uextend(raw));
    let eqi: Value = f.emit(Inst::TestImm(Cc::Equal, byte, name[i] as i64));
    let both: Value = f.emit(Inst::Band(acc, eqi));
    let ghost p1 = f.point();
    let ghost line = Seq::<Inst>::empty()
        .push(Inst::Load { width: 1, addr: kp, off: i as u64 })
        .push(Inst::Uextend(crate::ir::slot(p, 0)))
        .push(Inst::TestImm(Cc::Equal, crate::ir::slot(p, 1), name@[i as int] as i64))
        .push(Inst::Band(acc, crate::ir::slot(p, 2)));
    assert(crate::ir::laid(f@, p, line));
    keyeq_from(f, kp, both, name, i + 1, yes, no);
    let ghost fin = f@;
    proof {
        assert forall|m: Seq<FuncV>, q: FuncV, s: State, d: Seq<u8>, at: int| #[trigger]
            ready_bytes(m, q, s, p, fin, kp, acc, name@, i as int, d, at) implies decided(
            m,
            q,
            s,
            p,
            same(d, at, name@, name@.len() as int),
            yes,
            no,
        ) by {
            crate::ir::lemma_has_all(fin, q);
            lemma_byte(
                m,
                q,
                s,
                p,
                p1,
                fin,
                kp,
                acc,
                name@,
                i as int,
                d,
                at,
                yes,
                no,
                line,
            );
        }
    }
}

pub open spec fn ready_key(
    m: Seq<FuncV>,
    q: FuncV,
    s: State,
    p: Point,
    fin: FuncV,
    kp: Value,
    kl: Value,
    d: Seq<u8>,
    at: int,
    n: int,
) -> bool {
    &&& crate::ir::extends(fin, q)
    &&& crate::ir::stands(s, p)
    &&& crate::ir::get(s.vals, kp) == Some(crate::cursor::spot(d, at))
    &&& crate::ir::get(s.vals, kl) == Some(Val::Int(n))
    &&& 0 <= at
    &&& 0 <= n
    &&& at + n <= d.len()
}

/// Whether code goes to the one block where a span is a key, and to the other
/// where it is not.
pub open spec fn compares(
    p: Point,
    fin: FuncV,
    kp: Value,
    kl: Value,
    name: Seq<u8>,
    yes: usize,
    no: usize,
) -> bool {
    forall|m: Seq<FuncV>, q: FuncV, s: State, d: Seq<u8>, at: int, n: int| #[trigger]
        ready_key(m, q, s, p, fin, kp, kl, d, at, n) ==> decided(
            m,
            q,
            s,
            p,
            d.subrange(at, at + n) == name,
            yes,
            no,
        )
}

proof fn lemma_key(
    m: Seq<FuncV>,
    q: FuncV,
    s: State,
    p: Point,
    z: Point,
    b: Point,
    fin: FuncV,
    kp: Value,
    kl: Value,
    name: Seq<u8>,
    d: Seq<u8>,
    at: int,
    n: int,
    bytes: usize,
    yes: usize,
    no: usize,
    line: Seq<Inst>,
)
    requires
        name.len() <= i32::MAX,
        line == Seq::empty().push(Inst::TestImm(Cc::Equal, kl, name.len() as i64)),
        crate::ir::laid(q, p, line),
        crate::ir::open_at(p),
        z.cur == p.cur,
        crate::ir::size_at(z) == crate::ir::size_at(p) + 1,
        crate::ir::sealed(
            q,
            z,
            Term::Brif(
                crate::ir::slot(p, 0),
                Target { block: bytes, args: Args::Zero },
                Target { block: no, args: Args::Zero },
            ),
        ),
        crate::ir::takes(q, bytes, 0),
        crate::ir::takes(q, no, 0),
        b.cur == bytes,
        crate::ir::size_at(b) == 0,
        crate::ir::extends(p.f, b.f),
        crate::ir::built(p.f, kp),
        crate::ir::built(p.f, kl),
        compares_bytes(b, fin, kp, crate::ir::slot(p, 0), name, 0, yes, no),
        ready_key(m, q, s, p, fin, kp, kl, d, at, n),
    ensures
        decided(m, q, s, p, d.subrange(at, at + n) == name, yes, no),
{
    let g = Line { m, q, p0: p.f, s0: s, o: p, l: line };
    g.begin(s);
    let long = n == name.len();
    let a = g.test_imm(s, 0, crate::ir::truth(long));
    let term = Term::Brif(
        crate::ir::slot(p, 0),
        Target { block: bytes, args: Args::Zero },
        Target { block: no, args: Args::Zero },
    );
    let to = Target {
        block: (if long {
            bytes
        } else {
            no
        }),
        args: Args::Zero,
    };
    let c = crate::ir::goto(m, q, p.f, s, a, z, term, to);
    if long {
        assert(ready_bytes(m, q, c, b, fin, kp, crate::ir::slot(p, 0), name, 0, d, at));
        let t = chosen(m, q, c, b, same(d, at, name, name.len() as int), yes, no);
        crate::ir::go_on(m, q, p.f, s, c, b.f, t);
        assert(same(d, at, name, n) == (d.subrange(at, at + n) == name)) by {
            let span = d.subrange(at, at + n);
            if same(d, at, name, n) {
                assert(span =~= name);
            }
            if span == name {
                assert forall|j: int| 0 <= j < n implies d[at + j] == #[trigger] name[j] by {
                    assert(span[j] == name[j]);
                }
            }
        }
        assert(at_choice(s, t, p, d.subrange(at, at + n) == name, yes, no));
    } else {
        assert(d.subrange(at, at + n).len() == n);
        assert(at_choice(s, c, p, d.subrange(at, at + n) == name, yes, no));
    }
}

/// Adds the code that goes to the one block where a span is a key, and to the
/// other where it is not.
#[verifier::spinoff_prover]
#[verifier::rlimit(40)]
pub fn keyeq(f: &mut FuncIr, kp: Value, kl: Value, name: &Vec<u8>, yes: usize, no: usize)
    requires
        name@.len() <= i32::MAX,
        crate::ir::open_at(old(f).point()),
        crate::ir::size_at(old(f).point()) <= usize::MAX,
        crate::ir::built(old(f)@, kp),
        crate::ir::built(old(f)@, kl),
        crate::ir::takes(old(f)@, yes, 0),
        crate::ir::takes(old(f)@, no, 0),
        yes != old(f).cur,
        no != old(f).cur,
    ensures
        crate::tidy::adds(old(f).point(), final(f).point(), (8 * name@.len() + 20) as int),
        went_on(old(f).point(), final(f).point()),
        compares(old(f).point(), final(f)@, kp, kl, name@, yes, no),
{
    let ghost p = f.point();
    proof {
        crate::ir::lemma_laid_none(p);
    }
    let long: Value = f.emit(Inst::TestImm(Cc::Equal, kl, name.len() as i64));
    let ghost line = Seq::<Inst>::empty().push(
        Inst::TestImm(Cc::Equal, kl, name@.len() as i64),
    );
    let bytes: usize = f.create_block(0);
    let ghost z = f.point();
    f.end(
        Term::Brif(
            long,
            Target { block: bytes, args: Args::Zero },
            Target { block: no, args: Args::Zero },
        ),
    );
    f.switch_to(bytes);
    let ghost b = f.point();
    keyeq_from(f, kp, long, name, 0, yes, no);
    let ghost fin = f@;
    proof {
        crate::ir::lemma_carried(p, f.point());
        assert(crate::ir::laid(fin, p, line));
        assert forall|m: Seq<FuncV>, q: FuncV, s: State, d: Seq<u8>, at: int, n: int| #[trigger]
            ready_key(m, q, s, p, fin, kp, kl, d, at, n) implies decided(
            m,
            q,
            s,
            p,
            d.subrange(at, at + n) == name@,
            yes,
            no,
        ) by {
            crate::ir::lemma_has_all(fin, q);
            lemma_key(
                m,
                q,
                s,
                p,
                z,
                b,
                fin,
                kp,
                kl,
                name@,
                d,
                at,
                n,
                bytes,
                yes,
                no,
                line,
            );
        }
    }
}

} // verus!
