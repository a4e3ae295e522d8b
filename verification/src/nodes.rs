//! What the code that reads a type promises, and the parts that such code shares.
//!
//! A type that contains itself is read by a function of its own, which the code
//! calls where the type occurs. What a function reads is recorded in a table:
//! the type, and the functions of the types around it.
use crate::ascii::COMMA;
use crate::cursor::{load_u8, ws};
use crate::interp::{Block, OpV};
use crate::ir::{Cc, FuncIr, FuncV, Inst, Point, Region, State, Val, Value, World};
use crate::leaf::{store_sized, Pctx};
use crate::plan::{Site, Ty, TyV};
use crate::steps::Line;
use vstd::prelude::*;

verus! {

/// What a function reads: the type at a site, where those functions are for the
/// types around it, the outermost first and itself last.
pub struct Entry {
    pub site: Site,
    pub body: TyV,
    pub env: Seq<usize>,
}

/// The types around, by their functions.
pub open spec fn scope(tab: Seq<Entry>, env: Seq<usize>) -> crate::interp::Scope {
    Seq::new(env.len(), |i: int| (tab[env[i] as int].site, tab[env[i] as int].body))
}

/// Whether the functions for the types around are recorded as such.
pub open spec fn env_ok(tab: Seq<Entry>, env: Seq<usize>) -> bool {
    forall|i: int|
        0 <= i < env.len() ==> #[trigger] env[i] < tab.len() && tab[env[i] as int].env == env.take(
            i + 1,
        )
}

/// Whether the second table is the first, and more.
pub open spec fn prefix(a: Seq<Entry>, b: Seq<Entry>) -> bool {
    &&& a.len() <= b.len()
    &&& forall|k: int| 0 <= k < a.len() ==> #[trigger] b[k] == a[k]
}

pub proof fn lemma_prefix_trans(a: Seq<Entry>, b: Seq<Entry>, c: Seq<Entry>)
    requires
        prefix(a, b),
        prefix(b, c),
    ensures
        prefix(a, c),
{
    assert forall|k: int| 0 <= k < a.len() implies #[trigger] c[k] == a[k] by {
        assert(b[k] == a[k]);
    }
}

pub proof fn lemma_env_more(a: Seq<Entry>, b: Seq<Entry>, env: Seq<usize>)
    requires
        prefix(a, b),
        env_ok(a, env),
    ensures
        env_ok(b, env),
        scope(b, env) == scope(a, env),
{
    assert forall|i: int| 0 <= i < env.len() implies #[trigger] env[i] < b.len()
        && b[env[i] as int].env == env.take(i + 1) by {
        assert(b[env[i] as int] == a[env[i] as int]);
    }
    assert(scope(b, env) =~= scope(a, env)) by {
        assert forall|i: int| 0 <= i < env.len() implies scope(b, env)[i] == scope(a, env)[i] by {
            assert(env[i] < a.len());
            assert(b[env[i] as int] == a[env[i] as int]);
        }
    }
}

/// The compiled functions, what each of them reads, and how deep their calls can
/// be nested.
pub struct Mod {
    pub m: Seq<FuncV>,
    pub tab: Seq<Entry>,
    pub n: nat,
}

/// The arguments of a function that reads: the place, the cursor, the end of the
/// input, and the scratch space.
pub open spec fn args_of(d: Seq<u8>, c: int, block: Block, off: u64) -> Seq<Val> {
    seq![
        Val::Ptr(Region::Out(block), off as int),
        crate::cursor::spot(d, c),
        crate::cursor::spot(d, d.len() as int),
        Val::Ptr(Region::Scratch, 0),
    ]
}

/// Whether a function returns a cursor and has done its writes.
pub open spec fn returns_at(
    m: Seq<FuncV>,
    f: FuncV,
    args: Seq<Val>,
    w: World,
    d: Seq<u8>,
    ops: Seq<OpV>,
    e: int,
) -> bool {
    exists|n: nat|
        came_to(#[trigger] crate::ir::run(m, f, crate::ir::entry(args, w), n), w, d, ops, e)
}

/// Whether a cursor is returned, and some writes have been done.
pub open spec fn came_to(r: Option<(Val, World)>, w: World, d: Seq<u8>, ops: Seq<OpV>, e: int) -> bool {
    match r {
        Some((v, after)) => v == crate::cursor::spot(d, e) && after.ops == w.ops + ops,
        None => false,
    }
}

/// Whether a function reads the type at a position of the table, with calls
/// nested no more than `n` deep.
pub open spec fn right_one(
    m: Seq<FuncV>,
    tab: Seq<Entry>,
    k: int,
    n: nat,
    f: FuncV,
    d: Seq<u8>,
    c: int,
    block: Block,
    off: u64,
    w: World,
) -> bool {
    match crate::read::read(
        n,
        tab[k].body,
        scope(tab, tab[k].env),
        d,
        c,
        block,
        off,
        w.ops.len(),
    ) {
        None => true,
        Some((ops, e)) => 0 <= c && d.len() <= i64::MAX && w.ops.len() + ops.len() <= usize::MAX
            ==> returns_at(m, f, args_of(d, c, block, off), w, d, ops, e),
    }
}

pub open spec fn right_fn(m: Seq<FuncV>, tab: Seq<Entry>, k: int, n: nat, f: FuncV) -> bool {
    forall|d: Seq<u8>, c: int, block: Block, off: u64, w: World| #[trigger]
        right_one(m, tab, k, n, f, d, c, block, off, w)
}

/// Whether all the functions can be called, and read what they are recorded for.
pub open spec fn calls_ok(c: Mod) -> bool {
    &&& c.tab.len() <= c.m.len()
    &&& forall|k: int|
        0 <= k < c.tab.len() ==> #[trigger] c.m[k].blocks.len() > 0 && c.m[k].blocks[0].params == 4
    &&& forall|k: int, j: nat|
        0 <= k < c.tab.len() && j < c.n ==> #[trigger] right_fn(c.m, c.tab, k, j, c.m[k])
}

/// Whether they can, and the table is more of that one.
pub open spec fn callable(c: Mod, tab: Seq<Entry>) -> bool {
    prefix(tab, c.tab) && calls_ok(c)
}

/// What reading comes to.
pub open spec fn result(
    c: Mod,
    s: State,
    ty: TyV,
    env: Seq<usize>,
    dst: Value,
    cur: Value,
    x: Pctx,
) -> Option<(Seq<OpV>, int)> {
    crate::read::read(
        c.n,
        ty,
        scope(c.tab, env),
        crate::cursor::data(s, x.end),
        crate::cursor::pos(s, cur),
        crate::leaf::block_of(s, dst),
        crate::leaf::off_of(s, dst) as u64,
        s.world.ops.len(),
    )
}

/// The writes of a result.
pub open spec fn ops_of(r: Option<(Seq<OpV>, int)>) -> Seq<OpV> {
    match r {
        Some((ops, _)) => ops,
        None => Seq::empty(),
    }
}

/// The position of a result.
pub open spec fn end_of(r: Option<(Seq<OpV>, int)>) -> int {
    match r {
        Some((_, e)) => e,
        None => 0,
    }
}

pub open spec fn ready_read(
    c: Mod,
    tab: Seq<Entry>,
    q: FuncV,
    s: State,
    p: Point,
    to: Point,
    ty: TyV,
    env: Seq<usize>,
    dst: Value,
    cur: Value,
    x: Pctx,
) -> bool {
    let r = result(c, s, ty, env, dst, cur, x);
    &&& callable(c, tab)
    &&& env_ok(c.tab, env)
    &&& crate::ir::extends(to.f, q)
    &&& crate::ir::stands(s, p)
    &&& crate::leaf::set_up(s, dst, cur, x)
    &&& r is Some
    &&& s.world.ops.len() + ops_of(r).len() <= usize::MAX
}

/// Whether the code between two points reads a type.
pub open spec fn reads(
    tab: Seq<Entry>,
    ty: TyV,
    env: Seq<usize>,
    p: Point,
    to: Point,
    dst: Value,
    cur: Value,
    x: Pctx,
    r: Value,
) -> bool {
    forall|c: Mod, q: FuncV, s: State| #[trigger]
        ready_read(c, tab, q, s, p, to, ty, env, dst, cur, x) ==> crate::leaf::read_to(
            c.m,
            q,
            s,
            p,
            to,
            r,
            crate::cursor::data(s, x.end),
            ops_of(result(c, s, ty, env, dst, cur, x)),
            end_of(result(c, s, ty, env, dst, cur, x)),
        )
}

/// What code reads, it reads with more functions in the table.
pub proof fn lemma_reads_more(
    a: Seq<Entry>,
    b: Seq<Entry>,
    ty: TyV,
    env: Seq<usize>,
    p: Point,
    to: Point,
    dst: Value,
    cur: Value,
    x: Pctx,
    r: Value,
)
    requires
        prefix(a, b),
        reads(a, ty, env, p, to, dst, cur, x, r),
    ensures
        reads(b, ty, env, p, to, dst, cur, x, r),
{
    assert forall|c: Mod, q: FuncV, s: State| #[trigger]
        ready_read(c, b, q, s, p, to, ty, env, dst, cur, x) implies crate::leaf::read_to(
        c.m,
        q,
        s,
        p,
        to,
        r,
        crate::cursor::data(s, x.end),
        ops_of(result(c, s, ty, env, dst, cur, x)),
        end_of(result(c, s, ty, env, dst, cur, x)),
    ) by {
        lemma_prefix_trans(a, b, c.tab);
        assert(ready_read(c, a, q, s, p, to, ty, env, dst, cur, x));
    }
}

/// Whether a type holds no others.
pub open spec fn is_leaf(ty: TyV) -> bool {
    match ty {
        TyV::Bool | TyV::Char | TyV::U(_) | TyV::I(_) | TyV::F32 | TyV::F64 | TyV::Unit => true,
        TyV::Str(_) => true,
        TyV::StrRef { .. } => true,
        _ => false,
    }
}

pub proof fn lemma_leaf(
    tab: Seq<Entry>,
    ty: TyV,
    env: Seq<usize>,
    p: Point,
    to: Point,
    dst: Value,
    cur: Value,
    x: Pctx,
    r: Value,
)
    requires
        is_leaf(ty),
        crate::leaf::reads_leaf(ty, p, to, dst, cur, x, r),
    ensures
        reads(tab, ty, env, p, to, dst, cur, x, r),
{
    assert forall|c: Mod, q: FuncV, s: State| #[trigger]
        ready_read(c, tab, q, s, p, to, ty, env, dst, cur, x) implies crate::leaf::read_to(
        c.m,
        q,
        s,
        p,
        to,
        r,
        crate::cursor::data(s, x.end),
        ops_of(result(c, s, ty, env, dst, cur, x)),
        end_of(result(c, s, ty, env, dst, cur, x)),
    ) by {
        assert(result(c, s, ty, env, dst, cur, x) == crate::leaf::leaf_result(
            ty,
            s,
            dst,
            cur,
            x,
        ));
        assert(crate::leaf::ready_leaf(c.m, q, s, p, to, ty, dst, cur, x));
    }
}

// ---------------------------------------------------------------------------
// Functions in the making.
// ---------------------------------------------------------------------------

/// The functions made so far, and what each reads.
pub struct Build {
    pub funcs: Vec<FuncIr>,
    pub tab: Ghost<Seq<Entry>>,
}

/// Whether a function reads what the table has at a position, once all the
/// functions that it calls do.
pub open spec fn done_ok(tab: Seq<Entry>, k: int, f: FuncV) -> bool {
    &&& f.blocks.len() > 0
    &&& f.blocks[0].params == 4
    &&& forall|c: Mod| #[trigger] callable(c, tab) ==> right_fn(c.m, c.tab, k, c.n, f)
}

pub proof fn lemma_done_more(a: Seq<Entry>, b: Seq<Entry>, k: int, f: FuncV)
    requires
        prefix(a, b),
        done_ok(a, k, f),
    ensures
        done_ok(b, k, f),
{
    assert forall|c: Mod| #[trigger] callable(c, b) implies right_fn(c.m, c.tab, k, c.n, f) by {
        lemma_prefix_trans(a, b, c.tab);
        assert(callable(c, a));
    }
}

impl Build {
    pub open spec fn wf(self) -> bool {
        &&& self.funcs@.len() == self.tab@.len()
        &&& self.tab@.len() <= usize::MAX
    }

    /// Whether more functions have been made, all of them right, and those that
    /// there were are as they were.
    pub open spec fn extended(self, later: Build) -> bool {
        &&& later.wf()
        &&& prefix(self.tab@, later.tab@)
        &&& forall|k: int|
            0 <= k < self.tab@.len() ==> #[trigger] later.funcs@[k] == self.funcs@[k]
        &&& forall|k: int|
            self.tab@.len() <= k < later.tab@.len() ==> #[trigger] done_ok(
                later.tab@,
                k,
                later.funcs@[k]@,
            )
        &&& forall|k: int|
            self.tab@.len() <= k < later.tab@.len() ==> complete(
                #[trigger] later.funcs@[k],
                later.tab@.len() as int,
            )
    }
}

/// Whether a function is in order, is not too long, has no block that has not been
/// ended, and calls only the first `n` functions.
pub open spec fn complete(f: FuncIr, n: int) -> bool {
    &&& crate::tidy::tidy(f.point())
    &&& crate::tidy::left(f.point()) == 0
    &&& crate::tidy::total(f@) <= crate::lower::MAX_STEPS
    &&& crate::tidy::calls_below(f@, n)
}

/// Whether building has added no more steps than that, that many functions, and no
/// calls but of functions that there are.
pub open spec fn spent(b0: Build, p: Point, b: Build, to: Point, cost: int, recs: int) -> bool {
    &&& crate::tidy::tidy(p) ==> crate::tidy::total(to.f) <= crate::tidy::total(p.f) + cost
    &&& crate::tidy::calls_below(p.f, b0.funcs@.len() as int) ==> crate::tidy::calls_below(
        to.f,
        b.funcs@.len() as int,
    )
    &&& b.funcs@.len() == b0.funcs@.len() + recs
}

pub proof fn lemma_extended_trans(a: Build, b: Build, c: Build)
    requires
        a.extended(b),
        b.extended(c),
    ensures
        a.extended(c),
{
    lemma_prefix_trans(a.tab@, b.tab@, c.tab@);
    assert forall|k: int| 0 <= k < a.tab@.len() implies #[trigger] c.funcs@[k] == a.funcs@[k] by {
        assert(b.funcs@[k] == a.funcs@[k]);
    }
    assert forall|k: int| a.tab@.len() <= k < c.tab@.len() implies #[trigger] done_ok(
        c.tab@,
        k,
        c.funcs@[k]@,
    ) by {
        if k < b.tab@.len() {
            assert(done_ok(b.tab@, k, b.funcs@[k]@));
            lemma_done_more(b.tab@, c.tab@, k, b.funcs@[k]@);
            assert(c.funcs@[k] == b.funcs@[k]);
        }
    }
    assert forall|k: int| a.tab@.len() <= k < c.tab@.len() implies complete(
        #[trigger] c.funcs@[k],
        c.tab@.len() as int,
    ) by {
        if k < b.tab@.len() {
            assert(c.funcs@[k] == b.funcs@[k]);
            assert(complete(b.funcs@[k], b.tab@.len() as int));
            crate::tidy::lemma_calls_more(b.funcs@[k]@, b.tab@.len() as int, c.tab@.len() as int);
        }
    }
}

/// The functions for the types around.
pub open spec fn indices(env: Seq<(Site, usize, &Ty)>) -> Seq<usize> {
    Seq::new(env.len(), |i: int| env[i].1)
}

/// The sites of the types around.
pub open spec fn sites_of(env: Seq<(Site, usize, &Ty)>) -> Seq<Site> {
    Seq::new(env.len(), |i: int| env[i].0)
}

/// Whether the table has the types around.
pub open spec fn env_is(tab: Seq<Entry>, env: Seq<(Site, usize, &Ty)>) -> bool {
    &&& env_ok(tab, indices(env))
    &&& forall|i: int|
        #![trigger env[i]]
        0 <= i < env.len() ==> env[i].1 < tab.len() && tab[env[i].1 as int].site == env[i].0
            && tab[env[i].1 as int].body == env[i].2@
}

pub proof fn lemma_env_is_more(a: Seq<Entry>, b: Seq<Entry>, env: Seq<(Site, usize, &Ty)>)
    requires
        prefix(a, b),
        env_is(a, env),
    ensures
        env_is(b, env),
        scope(b, indices(env)) == scope(a, indices(env)),
{
    lemma_env_more(a, b, indices(env));
    assert forall|i: int|
        #![trigger env[i]]
        0 <= i < env.len() implies env[i].1 < b.len() && b[env[i].1 as int].site == env[i].0
        && b[env[i].1 as int].body == env[i].2@ by {
        assert(b[env[i].1 as int] == a[env[i].1 as int]);
    }
}

// ---------------------------------------------------------------------------
// Discriminants.
// ---------------------------------------------------------------------------

/// The low 64 bits of a number.
fn low_word(v: u128) -> (r: i64)
    ensures
        crate::ir::m64(r as int) == v as int % 0x1_0000_0000_0000_0000,
{
    let low: u64 = (v % 0x1_0000_0000_0000_0000) as u64;
    if low <= 0x7fff_ffff_ffff_ffff {
        low as i64
    } else {
        (low - 0x8000_0000_0000_0000) as i64 + i64::MIN
    }
}

pub open spec fn ready_disc(
    m: Seq<FuncV>,
    q: FuncV,
    s: State,
    p: Point,
    to: Point,
    dst: Value,
    disc_off: usize,
) -> bool {
    &&& crate::ir::extends(to.f, q)
    &&& crate::ir::stands(s, p)
    &&& crate::leaf::place(s, dst)
    &&& crate::interp::further(crate::leaf::off_of(s, dst) as u64, disc_off as int) is Some
}

/// The write of a discriminant.
pub open spec fn disc_write(s: State, dst: Value, disc_off: usize, disc_size: u8, v: u128) -> OpV {
    crate::read::disc_op(
        disc_off,
        disc_size,
        v,
        crate::leaf::block_of(s, dst),
        crate::leaf::off_of(s, dst) as u64,
    )->0
}

/// Whether the code between two points writes a discriminant.
pub open spec fn writes_disc(
    p: Point,
    to: Point,
    dst: Value,
    disc_off: usize,
    disc_size: u8,
    v: u128,
) -> bool {
    forall|m: Seq<FuncV>, q: FuncV, s: State| #[trigger]
        ready_disc(m, q, s, p, to, dst, disc_off) ==> crate::ir::comes(
            m,
            q,
            s,
            p.f,
            to,
            crate::ir::push_op(s.world, disc_write(s, dst, disc_off, disc_size, v)),
        )
}

/// Adds the code that writes a discriminant.
pub fn write_disc(f: &mut FuncIr, dst: Value, disc_off: usize, disc_size: u8, v: u128)
    requires
        disc_off <= i32::MAX,
        crate::read::disc_ok(disc_size),
        crate::ir::open_at(old(f).point()),
        crate::ir::size_at(old(f).point()) <= usize::MAX,
        crate::ir::built(old(f)@, dst),
    ensures
        crate::tidy::adds(old(f).point(), final(f).point(), 10),
        crate::binder::advanced(old(f).point(), final(f).point()),
        writes_disc(old(f).point(), final(f).point(), dst, disc_off, disc_size, v),
{
    let ghost p = f.point();
    proof {
        crate::ir::lemma_laid_none(p);
    }
    let low: i64 = low_word(v);
    let word: Value = f.emit(Inst::Iconst(low));
    let ghost line = Seq::<Inst>::empty().push(Inst::Iconst(low));
    let ghost p1 = f.point();
    store_sized(f, dst, disc_off, word, disc_size);
    let ghost to = f.point();
    proof {
        crate::ir::lemma_carried(p, to);
        assert(crate::ir::laid(to.f, p, line));
        assert forall|m: Seq<FuncV>, q: FuncV, s: State| #[trigger]
            ready_disc(m, q, s, p, to, dst, disc_off) implies crate::ir::comes(
            m,
            q,
            s,
            p.f,
            to,
            crate::ir::push_op(s.world, disc_write(s, dst, disc_off, disc_size, v)),
        ) by {
            crate::ir::lemma_has_all(to.f, q);
            let x = v as int % 0x1_0000_0000_0000_0000;
            let g = Line { m, q, p0: p.f, s0: s, o: p, l: line };
            g.begin(s);
            let a = g.iconst(s, 0, Val::Int(x));
            assert(crate::leaf::ready_store(m, q, a, p1, to, dst, disc_off, word));
            assert(crate::arith::pow256(8) == 0x1_0000_0000_0000_0000) by {
                reveal_with_fuel(crate::arith::pow256, 9);
            }
            crate::arith::lemma_le_rem(v as nat, 8, disc_size as nat);
            let op = crate::leaf::sized_op(a, dst, disc_off, word, disc_size);
            assert(op == disc_write(s, dst, disc_off, disc_size, v));
            let t = crate::ir::come(m, q, a, p1.f, to, crate::ir::push_op(a.world, op));
            crate::ir::go_on(m, q, p.f, s, a, p1.f, t);
        }
    }
}

// ---------------------------------------------------------------------------
// Commas.
// ---------------------------------------------------------------------------

pub open spec fn ready_comma(
    m: Seq<FuncV>,
    q: FuncV,
    s: State,
    p: Point,
    to: Point,
    cur: Value,
    end: Value,
) -> bool {
    &&& crate::cursor::ready_at(m, q, s, p, to, cur, end)
    &&& crate::read::comma_end(crate::cursor::data(s, end), crate::cursor::pos(s, cur)) is Some
}

/// Whether the code between two points moves a cursor past white space and a
/// comma.
pub open spec fn skips_comma(p: Point, to: Point, cur: Value, end: Value, r: Value) -> bool {
    forall|m: Seq<FuncV>, q: FuncV, s: State| #[trigger]
        ready_comma(m, q, s, p, to, cur, end) ==> crate::ir::computes(
            m,
            q,
            s,
            p.f,
            to,
            r,
            crate::cursor::spot(
                crate::cursor::data(s, end),
                crate::read::comma_end(crate::cursor::data(s, end), crate::cursor::pos(s, cur))->0,
            ),
            s.world,
        )
}

/// The code past white space.
pub open spec fn comma_line(p: Point, c: Value) -> Seq<Inst> {
    Seq::empty()
        .push(Inst::Load { width: 1, addr: c, off: 0 })
        .push(Inst::Uextend(crate::ir::slot(p, 0)))
        .push(Inst::TestImm(Cc::Equal, crate::ir::slot(p, 1), COMMA as i64))
        .push(Inst::IaddImm(c, 1))
        .push(Inst::Select(crate::ir::slot(p, 2), crate::ir::slot(p, 3), c))
}

proof fn lemma_comma(
    m: Seq<FuncV>,
    q: FuncV,
    s: State,
    p: Point,
    p1: Point,
    to: Point,
    cur: Value,
    end: Value,
    c: Value,
    line: Seq<Inst>,
)
    requires
        crate::cursor::skips_space(p, p1, cur, end, c),
        line == comma_line(p1, c),
        crate::ir::laid(q, p1, line),
        crate::ir::open_at(p1),
        crate::ir::extends(p.f, p1.f),
        crate::ir::extends(p1.f, q),
        crate::ir::built(p1.f, c),
        to.cur == p1.cur,
        crate::ir::size_at(to) == crate::ir::size_at(p1) + 5,
        ready_comma(m, q, s, p, to, cur, end),
    ensures
        crate::ir::computes(
            m,
            q,
            s,
            p.f,
            to,
            crate::ir::slot(p1, 4),
            crate::cursor::spot(
                crate::cursor::data(s, end),
                crate::read::comma_end(crate::cursor::data(s, end), crate::cursor::pos(s, cur))->0,
            ),
            s.world,
        ),
{
    let d = crate::cursor::data(s, end);
    let at = crate::scan::space_end(d, crate::cursor::pos(s, cur));
    assert(crate::cursor::ready_at(m, q, s, p, p1, cur, end));
    let a = crate::ir::computed(
        m,
        q,
        s,
        p.f,
        p1,
        c,
        crate::cursor::spot(d, at),
        s.world,
    );
    let g = Line { m, q, p0: p.f, s0: s, o: p1, l: line };
    let y = d[at];
    let v = Val::Int(y as int);
    let b0 = g.load(a, 0, v);
    let b1 = g.uextend(b0, 1, v);
    let b2 = g.test_imm(b1, 2, crate::ir::truth(y == COMMA));
    let b3 = g.iadd_imm(b2, 3, crate::cursor::spot(d, at + 1));
    let next = if y == COMMA {
        at + 1
    } else {
        at
    };
    let t = g.select(b3, 4, crate::cursor::spot(d, next));
}

/// Adds the code that moves a cursor past white space and, where there is one, a
/// comma.
pub fn comma(f: &mut FuncIr, cur: Value, end: Value) -> (r: Value)
    requires
        crate::ir::open_at(old(f).point()),
        crate::ir::size_at(old(f).point()) <= usize::MAX,
        crate::ir::built(old(f)@, cur),
        crate::ir::built(old(f)@, end),
    ensures
        crate::lower::sized(final(f)@, r, 8),
        crate::tidy::adds(old(f).point(), final(f).point(), 60),
        crate::binder::advanced(old(f).point(), final(f).point()),
        crate::ir::built(final(f)@, r),
        skips_comma(old(f).point(), final(f).point(), cur, end, r),
{
    let ghost p = f.point();
    proof {
        crate::ir::lemma_laid_none(p);
    }
    let c: Value = ws(f, cur, end);
    let ghost p1 = f.point();
    proof {
        crate::ir::lemma_laid_none(p1);
    }
    let byte: Value = load_u8(f, c);
    let is_comma: Value = f.emit(Inst::TestImm(Cc::Equal, byte, COMMA as i64));
    let c1: Value = f.emit(Inst::IaddImm(c, 1));
    let r: Value = f.emit(Inst::Select(is_comma, c1, c));
    let ghost to = f.point();
    let ghost line = comma_line(p1, c);
    proof {
        crate::ir::lemma_carried(p, to);
        assert(crate::ir::laid(to.f, p1, line));
        assert forall|m: Seq<FuncV>, q: FuncV, s: State| #[trigger]
            ready_comma(m, q, s, p, to, cur, end) implies crate::ir::computes(
            m,
            q,
            s,
            p.f,
            to,
            r,
            crate::cursor::spot(
                crate::cursor::data(s, end),
                crate::read::comma_end(crate::cursor::data(s, end), crate::cursor::pos(s, cur))->0,
            ),
            s.world,
        ) by {
            crate::ir::lemma_has_all(to.f, q);
            lemma_comma(m, q, s, p, p1, to, cur, end, c, line);
        }
    }
    r
}

// ---------------------------------------------------------------------------
// A place further on.
// ---------------------------------------------------------------------------

/// The code that gets at a place some way on from another.
pub open spec fn place_line(p: Point, dst: Value, off: i64) -> Seq<Inst> {
    Seq::empty().push(Inst::Iconst(off)).push(Inst::Iadd(dst, crate::ir::slot(p, 0)))
}

/// Gets at a place some way on from another.
pub proof fn lemma_place(
    m: Seq<FuncV>,
    q: FuncV,
    p0: FuncV,
    s0: State,
    a: State,
    p: Point,
    dst: Value,
    off: usize,
    line: Seq<Inst>,
) -> (t: State)
    requires
        off <= i64::MAX,
        line == place_line(p, dst, off as i64),
        crate::ir::laid(q, p, line),
        crate::ir::open_at(p),
        crate::ir::extends(p0, p.f),
        crate::ir::goes(m, q, s0, a),
        crate::ir::keeps(p0, s0, a),
        crate::ir::stands(a, p),
        crate::ir::built(p.f, dst),
        crate::leaf::place(a, dst),
    ensures
        crate::ir::goes(m, q, s0, t),
        crate::ir::keeps(p0, s0, t),
        crate::ir::keeps(p.f, a, t),
        t.world == a.world,
        t.block == p.cur,
        t.at == crate::ir::size_at(p) + 2,
        crate::ir::get(t.vals, crate::ir::slot(p, 1)) == Some(
            Val::Ptr(
                Region::Out(crate::leaf::block_of(a, dst)),
                crate::leaf::off_of(a, dst) + off,
            ),
        ),
{
    let g = Line { m, q, p0, s0, o: p, l: line };
    let b = g.iconst(a, 0, Val::Int(off as int));
    let at = Val::Ptr(
        Region::Out(crate::leaf::block_of(a, dst)),
        crate::leaf::off_of(a, dst) + off,
    );
    let t = g.iadd(b, 1, at);
    crate::ir::lemma_keeps_trans(p.f, p.f, a, b, t);
    t
}

} // verus!
