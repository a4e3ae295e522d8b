//! Code that reads an object into a struct, and an array into a tuple.
use crate::ascii::{CLOSE_BRACE, CLOSE_BRACKET};
use crate::cursor::{load_u8, ws};
use crate::interp::OpV;
use crate::ir::{
    Args, Cc, FuncIr, FuncV, Inst, Point, Region, Shim, State, Target, Term, Val, Value,
};
use crate::keys::keyeq;
use crate::leaf::Pctx;
use crate::nodes::{comma, write_disc, Build, Entry, Mod};
use crate::parser::parse;
use crate::plan::{FieldTy, FieldV, Site, Ty, TyV};
use crate::span::strspan;
use crate::steps::Line;
use crate::text::bytes_of;
use vstd::prelude::*;
use vstd::utf8::*;

verus! {

/// The types around.
pub open spec fn types_of(env: Seq<(Site, usize, &Ty)>) -> crate::interp::Scope {
    Seq::new(env.len(), |i: int| (env[i].0, env[i].2@))
}

/// The types around are those of the table.
pub proof fn lemma_types(tab: Seq<Entry>, env: Seq<(Site, usize, &Ty)>)
    requires
        crate::nodes::env_is(tab, env),
    ensures
        crate::nodes::scope(tab, crate::nodes::indices(env)) == types_of(env),
{
    let sc = crate::nodes::scope(tab, crate::nodes::indices(env));
    assert(sc =~= types_of(env)) by {
        assert forall|j: int| 0 <= j < env.len() implies sc[j] == types_of(env)[j] by {
            assert(env[j].1 < tab.len());
        }
    }
}

/// The first types around, with one more.
pub fn inside<'a>(env: &Vec<(Site, usize, &'a Ty)>, site: Site, k: usize, body: &'a Ty) -> (r: Vec<
    (Site, usize, &'a Ty),
>)
    ensures
        r@ == env@.push((site, k, body)),
{
    let mut out: Vec<(Site, usize, &'a Ty)> = up_to(env, env.len());
    out.push((site, k, body));
    assert(out@ =~= env@.push((site, k, body)));
    out
}

/// The first types around.
pub fn up_to<'a>(env: &Vec<(Site, usize, &'a Ty)>, n: usize) -> (r: Vec<(Site, usize, &'a Ty)>)
    requires
        n <= env@.len(),
    ensures
        r@ == env@.take(n as int),
{
    let mut out: Vec<(Site, usize, &'a Ty)> = Vec::new();
    let mut k: usize = 0;
    while k < n
        invariant
            k <= n <= env@.len(),
            out@ == env@.take(k as int),
        decreases n - k,
    {
        out.push(env[k]);
        assert(out@ =~= env@.take(k + 1));
        k = k + 1;
    }
    out
}

/// The innermost of the types around with that site.
pub fn lookup(env: &Vec<(Site, usize, &Ty)>, site: Site) -> (r: Option<usize>)
    ensures
        match crate::interp::find_site(types_of(env@), env@.len(), site) {
            Some(i) => r is Some && r->0 == i && i < env@.len(),
            None => r is None,
        },
{
    let mut n: usize = env.len();
    while n > 0
        invariant
            n <= env@.len(),
            crate::interp::find_site(types_of(env@), env@.len(), site)
                == crate::interp::find_site(types_of(env@), n as nat, site),
        decreases n,
    {
        if env[n - 1].0 == site {
            return Some(n - 1);
        }
        n = n - 1;
    }
    None
}

proof fn lemma_find(env: Seq<(Site, usize, &Ty)>, n: nat, site: Site, i: int)
    requires
        0 <= i < n <= env.len(),
        env[i].0 == site,
    ensures
        crate::interp::find_site(types_of(env), n, site) is Some,
    decreases n,
{
    if types_of(env)[n - 1].0 != site {
        lemma_find(env, (n - 1) as nat, site, i);
    }
}

/// A site that is not found is not there.
pub proof fn lemma_no_site(env: Seq<(Site, usize, &Ty)>, site: Site)
    requires
        crate::interp::find_site(types_of(env), env.len(), site) is None,
    ensures
        !crate::nodes::sites_of(env).contains(site),
{
    let sites = crate::nodes::sites_of(env);
    if sites.contains(site) {
        let i = choose|i: int| 0 <= i < sites.len() && sites[i] == site;
        lemma_find(env, env.len(), site, i);
    }
}

// ---------------------------------------------------------------------------
// Fields that are an `Option`.
// ---------------------------------------------------------------------------

/// Where a type is an `Option`: the place and size of its discriminant, and what
/// that is for `None`.
fn option_of<'a>(ty: &'a Ty, env: &Vec<(Site, usize, &'a Ty)>, limit: usize) -> (r: Option<
    (usize, u8, u128),
>)
    ensures
        r == crate::read::as_option(ty@, types_of(env@), limit as nat),
    decreases limit, ty@,
{
    match ty {
        Ty::Opt { disc_off, disc_size, none_discr, some_discr, payload_off, size, inner } => {
            if (*disc_size == 1 || *disc_size == 2 || *disc_size == 4 || *disc_size == 8)
                && *disc_off <= 0x7fff_ffff {
                Some((*disc_off, *disc_size, *none_discr))
            } else {
                None
            }
        },
        Ty::Rec { site, body } => {
            let more: Vec<(Site, usize, &'a Ty)> = inside(env, *site, 0, body);
            assert(types_of(more@) =~= types_of(env@).push((*site, body@)));
            option_of(body, &more, limit)
        },
        Ty::Ref(site) => match lookup(env, *site) {
            Some(i) => if i < limit {
                let more: Vec<(Site, usize, &'a Ty)> = up_to(env, i + 1);
                assert(types_of(more@) =~= types_of(env@).take(i + 1));
                option_of(env[i].2, &more, i)
            } else {
                None
            },
            None => None,
        },
        _ => None,
    }
}

/// What the code for the fields that are an `Option` leads to.
pub open spec fn nones(fields: Seq<FieldV>, k: nat, sc: crate::interp::Scope, s: State, dst: Value) -> Option<
    Seq<OpV>,
> {
    crate::read::none_fields(
        fields,
        k,
        sc,
        crate::leaf::block_of(s, dst),
        crate::leaf::off_of(s, dst) as u64,
    )
}

pub open spec fn ready_nones(
    m: Seq<FuncV>,
    q: FuncV,
    s: State,
    p: Point,
    to: Point,
    fields: Seq<FieldV>,
    k: nat,
    sc: crate::interp::Scope,
    dst: Value,
) -> bool {
    &&& crate::ir::extends(to.f, q)
    &&& crate::ir::stands(s, p)
    &&& crate::leaf::place(s, dst)
    &&& nones(fields, k, sc, s, dst) is Some
}

/// Whether the code between two points makes `None` of the fields from the `k`th
/// on that are an `Option`.
pub open spec fn writes_nones(
    p: Point,
    to: Point,
    fields: Seq<FieldV>,
    k: nat,
    sc: crate::interp::Scope,
    dst: Value,
) -> bool {
    forall|m: Seq<FuncV>, q: FuncV, s: State| #[trigger]
        ready_nones(m, q, s, p, to, fields, k, sc, dst) ==> crate::ir::comes(
            m,
            q,
            s,
            p.f,
            to,
            crate::binder::written(s.world, nones(fields, k, sc, s, dst)->0),
        )
}

proof fn lemma_none_field(
    m: Seq<FuncV>,
    q: FuncV,
    s: State,
    p: Point,
    p1: Point,
    p2: Point,
    to: Point,
    fields: Seq<FieldV>,
    k: nat,
    sc: crate::interp::Scope,
    dst: Value,
    disc_off: usize,
    disc_size: u8,
    v: u128,
    line: Seq<Inst>,
)
    requires
        k < fields.len(),
        fields[k as int].offset <= i64::MAX,
        crate::read::as_option(fields[k as int].ty, sc, sc.len()) == Some((disc_off, disc_size, v)),
        line == crate::nodes::place_line(p, dst, fields[k as int].offset as i64),
        crate::ir::laid(q, p, line),
        crate::ir::open_at(p),
        crate::ir::extends(p.f, p1.f),
        crate::ir::extends(p1.f, p2.f),
        crate::ir::extends(p2.f, q),
        p1.cur == p.cur,
        crate::ir::size_at(p1) == crate::ir::size_at(p) + 2,
        crate::ir::built(p.f, dst),
        crate::nodes::writes_disc(
            p1,
            p2,
            crate::ir::slot(p, 1),
            disc_off,
            disc_size,
            v,
        ),
        writes_nones(p2, to, fields, k + 1, sc, dst),
        ready_nones(m, q, s, p, to, fields, k, sc, dst),
    ensures
        crate::ir::comes(
            m,
            q,
            s,
            p.f,
            to,
            crate::binder::written(s.world, nones(fields, k, sc, s, dst)->0),
        ),
{
    let fdst = crate::ir::slot(p, 1);
    crate::ir::lemma_goes_refl(m, q, s);
    let a = crate::nodes::lemma_place(
        m,
        q,
        p.f,
        s,
        s,
        p,
        dst,
        fields[k as int].offset,
        line,
    );
    assert(crate::nodes::ready_disc(m, q, a, p1, p2, fdst, disc_off));
    let op = crate::nodes::disc_write(a, fdst, disc_off, disc_size, v);
    let b = crate::ir::come(m, q, a, p1.f, p2, crate::ir::push_op(a.world, op));
    crate::ir::go_on(m, q, p.f, s, a, p1.f, b);
    crate::ir::lemma_extends_trans(p.f, p1.f, p2.f);
    assert(crate::ir::get(b.vals, dst) == crate::ir::get(s.vals, dst));
    assert(ready_nones(m, q, b, p2, to, fields, k + 1, sc, dst));
    let more = nones(fields, k + 1, sc, b, dst)->0;
    let t = crate::ir::come(m, q, b, p2.f, to, crate::binder::written(b.world, more));
    crate::ir::go_on(m, q, p.f, s, b, p2.f, t);
    assert(t.world.ops =~= s.world.ops + nones(fields, k, sc, s, dst)->0);
}

/// Adds the code that makes `None` of the fields from the `k`th on that are an
/// `Option`.
fn emit_nones<'a>(
    f: &mut FuncIr,
    fields: &'a Vec<FieldTy>,
    k: usize,
    env: &Vec<(Site, usize, &'a Ty)>,
    dst: Value,
)
    requires
        k <= fields@.len(),
        crate::parser::unreadable_fields(
            crate::plan::fields_view(fields@),
            fields@.len(),
            crate::nodes::sites_of(env@),
        ) is None,
        crate::ir::open_at(old(f).point()),
        crate::ir::size_at(old(f).point()) <= usize::MAX,
        crate::ir::built(old(f)@, dst),
    ensures
        crate::tidy::adds(old(f).point(), final(f).point(), 20 * (fields@.len() - k)),
        crate::binder::advanced(old(f).point(), final(f).point()),
        writes_nones(
            old(f).point(),
            final(f).point(),
            crate::plan::fields_view(fields@),
            k as nat,
            types_of(env@),
            dst,
        ),
    decreases fields@.len() - k,
{
    let ghost p = f.point();
    let ghost fs = crate::plan::fields_view(fields@);
    let ghost sc = types_of(env@);
    proof {
        crate::ir::lemma_laid_none(p);
    }
    if k == fields.len() {
        proof {
            crate::ir::lemma_carried(p, p);
            assert forall|m: Seq<FuncV>, q: FuncV, s: State| #[trigger]
                ready_nones(m, q, s, p, p, fs, k as nat, sc, dst) implies crate::ir::comes(
                m,
                q,
                s,
                p.f,
                p,
                crate::binder::written(s.world, nones(fs, k as nat, sc, s, dst)->0),
            ) by {
                crate::ir::lemma_goes_refl(m, q, s);
                assert(s.world.ops + Seq::<OpV>::empty() =~= s.world.ops);
            }
        }
        return ;
    }
    proof {
        assert(fs[k as int] == fields@[k as int]@);
        crate::parser::lemma_unreadable_fields(
            fs,
            fields@.len(),
            crate::nodes::sites_of(env@),
            k as int,
        );
    }
    let field = &fields[k];
    match option_of(&field.ty, env, env.len()) {
        None => {
            emit_nones(f, fields, k + 1, env, dst);
            proof {
                let to = f.point();
                assert forall|m: Seq<FuncV>, q: FuncV, s: State| #[trigger]
                    ready_nones(m, q, s, p, to, fs, k as nat, sc, dst) implies crate::ir::comes(
                    m,
                    q,
                    s,
                    p.f,
                    to,
                    crate::binder::written(s.world, nones(fs, k as nat, sc, s, dst)->0),
                ) by {
                    assert(ready_nones(m, q, s, p, to, fs, (k + 1) as nat, sc, dst));
                }
            }
        },
        Some((disc_off, disc_size, v)) => {
            proof {
                lemma_option_size(fs[k as int].ty, sc, sc.len());
            }
            let off: Value = f.emit(Inst::Iconst(field.offset as i64));
            let fdst: Value = f.emit(Inst::Iadd(dst, off));
            let ghost line = crate::nodes::place_line(p, dst, field.offset as i64);
            let ghost p1 = f.point();
            assert(crate::ir::laid(f@, p, line));
            write_disc(f, fdst, disc_off, disc_size, v);
            let ghost p2 = f.point();
            assert(crate::ir::extends(p2.f, p2.f));
            emit_nones(f, fields, k + 1, env, dst);
            let ghost to = f.point();
            proof {
                crate::ir::lemma_carried(p, to);
                assert forall|m: Seq<FuncV>, q: FuncV, s: State| #[trigger]
                    ready_nones(m, q, s, p, to, fs, k as nat, sc, dst) implies crate::ir::comes(
                    m,
                    q,
                    s,
                    p.f,
                    to,
                    crate::binder::written(s.world, nones(fs, k as nat, sc, s, dst)->0),
                ) by {
                    crate::ir::lemma_has_all(to.f, q);
                    lemma_none_field(
                        m,
                        q,
                        s,
                        p,
                        p1,
                        p2,
                        to,
                        fs,
                        k as nat,
                        sc,
                        dst,
                        disc_off,
                        disc_size,
                        v,
                        line,
                    );
                }
            }
        },
    }
}

proof fn lemma_option_size(ty: TyV, sc: crate::interp::Scope, limit: nat)
    ensures
        crate::read::as_option(ty, sc, limit) matches Some((o, n, v)) ==> crate::read::disc_ok(n) && o
            <= i32::MAX,
    decreases limit, ty,
{
    match ty {
        TyV::Rec { site, body } => {
            lemma_option_size(*body, sc.push((site, *body)), limit);
        },
        TyV::Ref(site) => {
            if let Some(i) = crate::interp::find_site(sc, sc.len(), site) {
                if i < limit {
                    lemma_option_size(sc[i as int].1, sc.take((i + 1) as int), i);
                }
            }
        },
        _ => {},
    }
}

// ---------------------------------------------------------------------------
// One member.
// ---------------------------------------------------------------------------

/// What reading a member's value comes to, where the fields before the `k`th are
/// not the one for it.
pub open spec fn member_result(
    c: Mod,
    s: State,
    fields: Seq<FieldV>,
    k: nat,
    env: Seq<usize>,
    dst: Value,
    val: Value,
    x: Pctx,
    key: Seq<u8>,
) -> Option<(Seq<OpV>, int)> {
    let d = crate::cursor::data(s, x.end);
    let at = crate::cursor::pos(s, val);
    match crate::read::field_at(fields, k, key) {
        None => if at <= d.len() {
            Some((Seq::empty(), crate::scan::value_end(d, at)))
        } else {
            None
        },
        Some(i) => if i >= fields.len() {
            None
        } else {
            match crate::interp::further(
                crate::leaf::off_of(s, dst) as u64,
                fields[i as int].offset as int,
            ) {
                None => None,
                Some(p) => crate::read::read(
                    c.n,
                    fields[i as int].ty,
                    crate::nodes::scope(c.tab, env),
                    d,
                    at,
                    crate::leaf::block_of(s, dst),
                    p,
                    s.world.ops.len(),
                ),
            }
        },
    }
}

/// The values of a member: where its key is and how long, and the cursor before
/// its value.
pub struct Member {
    pub kp: Value,
    pub kl: Value,
    pub val: Value,
    /// Where reading goes on after the value.
    pub after: usize,
}

pub open spec fn ready_member(
    c: Mod,
    tab: Seq<Entry>,
    q: FuncV,
    s: State,
    p: Point,
    fin: FuncV,
    fields: Seq<FieldV>,
    k: nat,
    env: Seq<usize>,
    dst: Value,
    v: Member,
    x: Pctx,
    first: int,
    quote: int,
) -> bool {
    let d = crate::cursor::data(s, x.end);
    let r = member_result(c, s, fields, k, env, dst, v.val, x, d.subrange(first, quote));
    &&& crate::nodes::callable(c, tab)
    &&& crate::nodes::env_ok(c.tab, env)
    &&& crate::ir::extends(fin, q)
    &&& crate::ir::stands(s, p)
    &&& crate::leaf::set_up(s, dst, v.val, x)
    &&& 0 <= first <= quote <= d.len()
    &&& crate::ir::get(s.vals, v.kp) == Some(crate::cursor::spot(d, first))
    &&& crate::ir::get(s.vals, v.kl) == Some(Val::Int(quote - first))
    &&& r is Some
    &&& s.world.ops.len() + crate::nodes::ops_of(r).len() <= usize::MAX
}

/// Whether code has gone to a block with a cursor, with some writes done and what
/// had been built at `p0` unchanged.
pub open spec fn arrived(
    s: State,
    t: State,
    p0: FuncV,
    block: usize,
    d: Seq<u8>,
    ops: Seq<OpV>,
    e: int,
) -> bool {
    &&& crate::ir::keeps(p0, s, t)
    &&& t.block == block
    &&& t.at == 0
    &&& crate::ir::get(t.vals, Value::Param(block, 0)) == Some(crate::cursor::spot(d, e))
    &&& t.world.ops == s.world.ops + ops
}

pub open spec fn arrives(
    m: Seq<FuncV>,
    q: FuncV,
    s: State,
    p0: FuncV,
    block: usize,
    d: Seq<u8>,
    ops: Seq<OpV>,
    e: int,
) -> bool {
    exists|t: State| #[trigger] crate::ir::goes(m, q, s, t) && arrived(s, t, p0, block, d, ops, e)
}

/// The state that the code comes to.
pub proof fn arrival(
    m: Seq<FuncV>,
    q: FuncV,
    s: State,
    p0: FuncV,
    block: usize,
    d: Seq<u8>,
    ops: Seq<OpV>,
    e: int,
) -> (t: State)
    requires
        arrives(m, q, s, p0, block, d, ops, e),
    ensures
        crate::ir::goes(m, q, s, t),
        arrived(s, t, p0, block, d, ops, e),
{
    choose|t: State| #[trigger]
        crate::ir::goes(m, q, s, t) && arrived(s, t, p0, block, d, ops, e)
}

/// Whether code reads a member's value into the first of the fields from the
/// `k`th on that has its key, or passes over it.
pub open spec fn dispatches(
    tab: Seq<Entry>,
    fields: Seq<FieldV>,
    k: nat,
    env: Seq<usize>,
    p: Point,
    fin: FuncV,
    p0: FuncV,
    dst: Value,
    v: Member,
    x: Pctx,
) -> bool {
    forall|c: Mod, q: FuncV, s: State, first: int, quote: int| #[trigger]
        ready_member(
            c,
            tab,
            q,
            s,
            p,
            fin,
            fields,
            k,
            env,
            dst,
            v,
            x,
            first,
            quote,
        ) ==> member_read(c, q, s, p0, fields, k, env, dst, v, x, first, quote)
}

pub open spec fn member_read(
    c: Mod,
    q: FuncV,
    s: State,
    p0: FuncV,
    fields: Seq<FieldV>,
    k: nat,
    env: Seq<usize>,
    dst: Value,
    v: Member,
    x: Pctx,
    first: int,
    quote: int,
) -> bool {
    let d = crate::cursor::data(s, x.end);
    let r = member_result(c, s, fields, k, env, dst, v.val, x, d.subrange(first, quote));
    arrives(
        c.m,
        q,
        s,
        p0,
        v.after,
        d,
        crate::nodes::ops_of(r),
        crate::nodes::end_of(r),
    )
}

/// The points of the code for one field of a struct.
pub struct FieldCode {
    pub tab: Seq<Entry>,
    pub env: Seq<usize>,
    pub fields: Seq<FieldV>,
    pub k: nat,
    pub dst: Value,
    pub v: Member,
    pub x: Pctx,
    pub p0: FuncV,
    /// The start, the block for the field's value and that for the next field.
    pub p: Point,
    pub yes: usize,
    pub no: usize,
    /// The function once the key has been compared.
    pub key_fin: FuncV,
    /// In the block for the value: the start, before and after it.
    pub y: Point,
    pub y1: Point,
    pub y2: Point,
    pub e: Value,
    /// The start of the next field.
    pub n: Point,
    pub fin: FuncV,
}

impl FieldCode {
    pub open spec fn line(self) -> Seq<Inst> {
        crate::nodes::place_line(self.y, self.dst, self.fields[self.k as int].offset as i64)
    }

    pub open spec fn value_end(self) -> Term {
        Term::Jump(Target { block: self.v.after, args: Args::One(self.e) })
    }

    pub open spec fn stands_in(self, q: FuncV) -> bool {
        &&& crate::ir::extends(self.key_fin, q)
        &&& crate::ir::laid(q, self.y, self.line())
        &&& crate::ir::sealed(q, self.y2, self.value_end())
        &&& crate::ir::takes(q, self.v.after, 1)
        &&& crate::ir::extends(self.y2.f, q)
    }

    pub open spec fn wf(self) -> bool {
        &&& self.k < self.fields.len()
        &&& self.fields[self.k as int].offset <= i64::MAX
        &&& self.v.after >= self.p0.blocks.len()
        &&& self.y.cur == self.yes
        &&& crate::ir::size_at(self.y) == 0
        &&& self.y1.cur == self.yes
        &&& crate::ir::size_at(self.y1) == 2
        &&& self.n.cur == self.no
        &&& crate::ir::size_at(self.n) == 0
        &&& crate::ir::open_at(self.y)
        &&& crate::ir::extends(self.p0, self.p.f)
        &&& crate::ir::extends(self.p.f, self.y.f)
        &&& crate::ir::extends(self.y.f, self.y1.f)
        &&& crate::ir::extends(self.y1.f, self.y2.f)
        &&& crate::ir::extends(self.p.f, self.n.f)
        &&& crate::ir::built(self.p.f, self.dst)
        &&& crate::ir::built(self.p.f, self.v.kp)
        &&& crate::ir::built(self.p.f, self.v.kl)
        &&& crate::ir::built(self.p.f, self.v.val)
        &&& crate::ir::built(self.p.f, self.x.end)
        &&& crate::ir::built(self.p.f, self.x.sc)
        &&& crate::keys::compares(
            self.p,
            self.key_fin,
            self.v.kp,
            self.v.kl,
            encode_utf8(self.fields[self.k as int].name),
            self.yes,
            self.no,
        )
        &&& crate::nodes::reads(
            self.tab,
            self.fields[self.k as int].ty,
            self.env,
            self.y1,
            self.y2,
            crate::ir::slot(self.y, 1),
            self.v.val,
            self.x,
            self.e,
        )
        &&& dispatches(
            self.tab,
            self.fields,
            self.k + 1,
            self.env,
            self.n,
            self.fin,
            self.p0,
            self.dst,
            self.v,
            self.x,
        )
    }

    pub open spec fn ready(self, c: Mod, q: FuncV, s: State, first: int, quote: int) -> bool {
        ready_member(
            c,
            self.tab,
            q,
            s,
            self.p,
            self.fin,
            self.fields,
            self.k,
            self.env,
            self.dst,
            self.v,
            self.x,
            first,
            quote,
        )
    }

    /// The field's own value.
    #[verifier::spinoff_prover]
    #[verifier::rlimit(60)]
    proof fn lemma_yes(self, c: Mod, q: FuncV, s: State, a: State, first: int, quote: int)
        requires
            self.wf(),
            self.stands_in(q),
            self.ready(c, q, s, first, quote),
            encode_utf8(self.fields[self.k as int].name) == crate::cursor::data(
                s,
                self.x.end,
            ).subrange(first, quote),
            crate::ir::goes(c.m, q, s, a),
            crate::ir::keeps(self.p.f, s, a),
            a.world == s.world,
            a.at == 0,
            a.block == self.yes,
        ensures
            member_read(
                c,
                q,
                s,
                self.p0,
                self.fields,
                self.k,
                self.env,
                self.dst,
                self.v,
                self.x,
                first,
                quote,
            ),
    {
        let d = crate::cursor::data(s, self.x.end);
        let key = d.subrange(first, quote);
        let field = self.fields[self.k as int];
        let r = member_result(
            c,
            s,
            self.fields,
            self.k,
            self.env,
            self.dst,
            self.v.val,
            self.x,
            key,
        );
        let fdst = crate::ir::slot(self.y, 1);
        crate::ir::lemma_extends_trans(self.p0, self.p.f, self.y.f);
        crate::ir::lemma_extends_trans(self.p0, self.y.f, self.y1.f);
        crate::ir::lemma_keeps_trans(self.p0, self.p.f, s, s, a);
        crate::ir::lemma_built(self.p.f, self.y.f, self.dst);
        crate::ir::lemma_built(self.p.f, self.y.f, self.v.val);
        crate::ir::lemma_built(self.p.f, self.y.f, self.x.end);
        crate::ir::lemma_built(self.p.f, self.y.f, self.x.sc);
        assert(crate::ir::get(a.vals, self.dst) == crate::ir::get(s.vals, self.dst));
        assert(crate::ir::get(a.vals, self.v.val) == crate::ir::get(s.vals, self.v.val));
        assert(crate::ir::get(a.vals, self.x.end) == crate::ir::get(s.vals, self.x.end));
        assert(crate::ir::get(a.vals, self.x.sc) == crate::ir::get(s.vals, self.x.sc));
        let b = crate::nodes::lemma_place(
            c.m,
            q,
            self.p0,
            s,
            a,
            self.y,
            self.dst,
            field.offset,
            self.line(),
        );
        assert(crate::ir::get(b.vals, self.v.val) == crate::ir::get(a.vals, self.v.val));
        assert(crate::ir::get(b.vals, self.x.end) == crate::ir::get(a.vals, self.x.end));
        assert(crate::ir::get(b.vals, self.x.sc) == crate::ir::get(a.vals, self.x.sc));
        let r2 = crate::nodes::result(c, b, field.ty, self.env, fdst, self.v.val, self.x);
        assert(r2 == r);
        assert(crate::nodes::ready_read(
            c,
            self.tab,
            q,
            b,
            self.y1,
            self.y2,
            field.ty,
            self.env,
            fdst,
            self.v.val,
            self.x,
        ));
        let ops = crate::nodes::ops_of(r);
        let e = crate::nodes::end_of(r);
        let u = crate::leaf::read_got(c.m, q, b, self.y1, self.y2, self.e, d, ops, e);
        crate::ir::go_on(c.m, q, self.p0, s, b, self.y1.f, u);
        let last = Target { block: self.v.after, args: Args::One(self.e) };
        let t = crate::ir::goto(c.m, q, self.p0, s, u, self.y2, self.value_end(), last);
        assert(arrived(s, t, self.p0, self.v.after, d, ops, e));
    }

    proof fn lemma_all(self, c: Mod, q: FuncV, s: State, first: int, quote: int)
        requires
            self.wf(),
            self.stands_in(q),
            self.ready(c, q, s, first, quote),
        ensures
            member_read(
                c,
                q,
                s,
                self.p0,
                self.fields,
                self.k,
                self.env,
                self.dst,
                self.v,
                self.x,
                first,
                quote,
            ),
    {
        let d = crate::cursor::data(s, self.x.end);
        let key = d.subrange(first, quote);
        let name = encode_utf8(self.fields[self.k as int].name);
        assert(first + (quote - first) == quote);
        assert(crate::keys::ready_key(
            c.m,
            q,
            s,
            self.p,
            self.key_fin,
            self.v.kp,
            self.v.kl,
            d,
            first,
            quote - first,
        ));
        let a = crate::keys::chosen(c.m, q, s, self.p, key == name, self.yes, self.no);
        if key == name {
            self.lemma_yes(c, q, s, a, first, quote);
        } else {
            assert(crate::ir::get(a.vals, self.dst) == crate::ir::get(s.vals, self.dst));
            assert(crate::ir::get(a.vals, self.v.val) == crate::ir::get(s.vals, self.v.val));
            assert(crate::ir::get(a.vals, self.v.kp) == crate::ir::get(s.vals, self.v.kp));
            assert(crate::ir::get(a.vals, self.v.kl) == crate::ir::get(s.vals, self.v.kl));
            assert(crate::ir::get(a.vals, self.x.end) == crate::ir::get(s.vals, self.x.end));
            assert(crate::ir::get(a.vals, self.x.sc) == crate::ir::get(s.vals, self.x.sc));
            let r = member_result(
                c,
                s,
                self.fields,
                self.k,
                self.env,
                self.dst,
                self.v.val,
                self.x,
                key,
            );
            let r2 = member_result(
                c,
                a,
                self.fields,
                self.k + 1,
                self.env,
                self.dst,
                self.v.val,
                self.x,
                key,
            );
            assert(r2 == r);
            assert(ready_member(
                c,
                self.tab,
                q,
                a,
                self.n,
                self.fin,
                self.fields,
                self.k + 1,
                self.env,
                self.dst,
                self.v,
                self.x,
                first,
                quote,
            ));
            let ops = crate::nodes::ops_of(r);
            let e = crate::nodes::end_of(r);
            let t = arrival(c.m, q, a, self.p0, self.v.after, d, ops, e);
            crate::ir::lemma_keeps_trans(self.p0, self.p.f, s, s, a);
            crate::ir::go_on(c.m, q, self.p0, s, a, self.p0, t);
            assert(arrived(s, t, self.p0, self.v.after, d, ops, e));
        }
    }
}

/// Adds the code that reads a member's value into the first of the fields from
/// the `k`th on that has its key, or passes over it, and ends the block.
#[verifier::spinoff_prover]
#[verifier::rlimit(100)]
fn emit_members<'a>(
    b: &mut Build,
    f: &mut FuncIr,
    fields: &'a Vec<FieldTy>,
    k: usize,
    env: &Vec<(Site, usize, &'a Ty)>,
    dst: Value,
    kp: Value,
    kl: Value,
    val: Value,
    after: usize,
    x: &Pctx,
    Ghost(p0): Ghost<FuncV>,
)
    requires
        crate::plan::weight_from(crate::plan::fields_view(fields@), k as nat) <= crate::plan::MAX_WEIGHT,
        k <= fields@.len(),
        old(b).wf(),
        crate::nodes::env_is(old(b).tab@, env@),
        crate::parser::unreadable_fields(
            crate::plan::fields_view(fields@),
            fields@.len(),
            crate::nodes::sites_of(env@),
        ) is None,
        crate::leaf::can_build(*old(f), dst, val, *x),
        crate::ir::built(old(f)@, kp),
        crate::ir::built(old(f)@, kl),
        crate::ir::extends(p0, old(f)@),
        p0.blocks.len() <= after,
        after != old(f).cur,
        crate::ir::takes(old(f)@, after, 1),
    ensures
        crate::nodes::spent(
            *old(b),
            old(f).point(),
            *final(b),
            final(f).point(),
            crate::binder::STEP * (crate::plan::weight_from(crate::plan::fields_view(fields@), k as nat)) - 20 * (fields@.len() - k) + 100,
            (crate::plan::recs_from(crate::plan::fields_view(fields@), k as nat)) as int,
        ),
        old(b).extended(*final(b)),
        crate::keys::went_on(old(f).point(), final(f).point()),
        dispatches(
            final(b).tab@,
            crate::plan::fields_view(fields@),
            k as nat,
            crate::nodes::indices(env@),
            old(f).point(),
            final(f)@,
            p0,
            dst,
            (Member { kp, kl, val, after }),
            *x,
        ),
    decreases fields, fields@.len() - k,
{
    let ghost p = f.point();
    let ghost fs = crate::plan::fields_view(fields@);
    let ghost ix = crate::nodes::indices(env@);
    let ghost v = Member { kp, kl, val, after };
    proof {
        crate::ir::lemma_laid_none(p);
    }
    if k == fields.len() {
        let skipped: Value = f.emit(Inst::Call(Shim::Skip, Args::Two(val, x.end)));
        let ghost line = Seq::<Inst>::empty().push(
            Inst::Call(Shim::Skip, Args::Two(val, x.end)),
        );
        let ghost z = f.point();
        let last = Target { block: after, args: Args::One(skipped) };
        f.end(Term::Jump(last));
        let ghost fin = f@;
        proof {
            crate::ir::lemma_carried(p, f.point());
            assert(crate::ir::laid(fin, p, line));
            assert forall|c: Mod, q: FuncV, s: State, first: int, quote: int| #[trigger]
                ready_member(
                    c,
                    b.tab@,
                    q,
                    s,
                    p,
                    fin,
                    fs,
                    k as nat,
                    ix,
                    dst,
                    v,
                    *x,
                    first,
                    quote,
                ) implies member_read(
                c,
                q,
                s,
                p0,
                fs,
                k as nat,
                ix,
                dst,
                v,
                *x,
                first,
                quote,
            ) by {
                crate::ir::lemma_has_all(fin, q);
                let d = crate::cursor::data(s, x.end);
                let key = d.subrange(first, quote);
                let r = member_result(c, s, fs, k as nat, ix, dst, val, *x, key);
                let ops = crate::nodes::ops_of(r);
                let e = crate::nodes::end_of(r);
                let g = Line { m: c.m, q, p0, s0: s, o: p, l: line };
                crate::ir::lemma_goes_refl(c.m, q, s);
                let a = g.call_two(s, 0, crate::cursor::spot(d, e), s.world);
                let t = crate::ir::goto(c.m, q, p0, s, a, z, Term::Jump(last), last);
                assert(t.world.ops =~= s.world.ops + ops);
                assert(arrived(s, t, p0, after, d, ops, e));
            }
        }
        return ;
    }
    proof {
        assert(decreases_to!(*fields => fields@));
        assert(decreases_to!(fields@ => fields@[k as int]));
        assert(decreases_to!(fields@[k as int] => fields@[k as int].ty));
        assert(fs[k as int] == fields@[k as int]@);
        crate::parser::lemma_unreadable_fields(
            fs,
            fields@.len(),
            crate::nodes::sites_of(env@),
            k as int,
        );
    }
    let field = &fields[k];
    let name: Vec<u8> = bytes_of(field.name.as_str());
    let yes: usize = f.create_block(0);
    let no: usize = f.create_block(0);
    let ghost pk = f.point();
    keyeq(f, kp, kl, &name, yes, no);
    let ghost key_fin = f@;
    assert(crate::ir::extends(key_fin, key_fin));
    f.switch_to(yes);
    let ghost y = f.point();
    let off: Value = f.emit(Inst::Iconst(field.offset as i64));
    let fdst: Value = f.emit(Inst::Iadd(dst, off));
    let ghost y1 = f.point();
    assert(crate::ir::extends(y1.f, y1.f));
    let e: Value = parse(b, f, &field.ty, env, fdst, val, x);
    let ghost tab1 = b.tab@;
    let ghost b1 = *b;
    let ghost y2 = f.point();
    assert(crate::ir::extends(y2.f, y2.f));
    f.end(Term::Jump(Target { block: after, args: Args::One(e) }));
    f.switch_to(no);
    let ghost n = f.point();
    proof {
        crate::nodes::lemma_env_is_more(old(b).tab@, b.tab@, env@);
    }
    emit_members(b, f, fields, k + 1, env, dst, kp, kl, val, after, x, Ghost(p0));
    let ghost fin = f@;
    let ghost w = FieldCode {
        tab: b.tab@,
        env: ix,
        fields: fs,
        k: k as nat,
        dst,
        v,
        x: *x,
        p0,
        p: pk,
        yes,
        no,
        key_fin,
        y,
        y1,
        y2,
        e,
        n,
        fin,
    };
    proof {
        crate::ir::lemma_carried(p, f.point());
        crate::nodes::lemma_extended_trans(*old(b), b1, *b);
        crate::nodes::lemma_reads_more(
            tab1,
            b.tab@,
            fs[k as int].ty,
            ix,
            y1,
            y2,
            fdst,
            val,
            *x,
            e,
        );
        assert(crate::ir::laid(fin, y, w.line()));
        assert(w.wf());
        assert(w.stands_in(fin));
        assert forall|c: Mod, q: FuncV, s: State, first: int, quote: int| #[trigger]
            ready_member(
                c,
                b.tab@,
                q,
                s,
                p,
                fin,
                fs,
                k as nat,
                ix,
                dst,
                v,
                *x,
                first,
                quote,
            ) implies member_read(
            c,
            q,
            s,
            p0,
            fs,
            k as nat,
            ix,
            dst,
            v,
            *x,
            first,
            quote,
        ) by {
            crate::ir::lemma_has_all(fin, q);
            assert(w.stands_in(q));
            assert(crate::ir::stands(s, pk));
            assert(w.ready(c, q, s, first, quote));
            w.lemma_all(c, q, s, first, quote);
        }
    }
}

// ---------------------------------------------------------------------------
// All members.
// ---------------------------------------------------------------------------

/// The code that reads an object.
pub struct ObjectCode {
    pub tab: Seq<Entry>,
    pub env: Seq<usize>,
    pub fields: Seq<FieldV>,
    pub dst: Value,
    pub x: Pctx,
    pub header: usize,
    pub cont: usize,
    pub body: usize,
    pub v: Member,
    /// What had been built before the loop.
    pub p0: FuncV,
    /// The header: the start, past white space, and the end; the cursor there.
    pub h: Point,
    pub h1: Point,
    pub h2: Point,
    pub hc: Value,
    /// The body: the start, after the key, past white space, before the value;
    /// the cursors after the key and past white space.
    pub k: Point,
    pub k1: Point,
    pub k2: Point,
    pub k3: Point,
    pub after: Value,
    pub kc: Value,
    /// The function once the member has been read.
    pub fin: FuncV,
    /// After the value: the start and the end; the cursor there.
    pub a: Point,
    pub a1: Point,
    pub next: Value,
}

impl ObjectCode {
    pub open spec fn head_line(self) -> Seq<Inst> {
        Seq::empty()
            .push(Inst::Load { width: 1, addr: self.hc, off: 0 })
            .push(Inst::Uextend(crate::ir::slot(self.h1, 0)))
            .push(Inst::TestImm(Cc::Equal, crate::ir::slot(self.h1, 1), CLOSE_BRACE as i64))
            .push(Inst::IaddImm(self.hc, 1))
    }

    pub open spec fn head_end(self) -> Term {
        Term::Brif(
            crate::ir::slot(self.h1, 2),
            Target { block: self.cont, args: Args::One(crate::ir::slot(self.h1, 3)) },
            Target { block: self.body, args: Args::One(self.hc) },
        )
    }

    pub open spec fn colon_line(self) -> Seq<Inst> {
        Seq::empty().push(Inst::IaddImm(self.kc, 1))
    }

    pub open spec fn after_end(self) -> Term {
        Term::Jump(Target { block: self.header, args: Args::One(self.next) })
    }

    pub open spec fn stands_in(self, q: FuncV) -> bool {
        &&& crate::ir::laid(q, self.h1, self.head_line())
        &&& crate::ir::sealed(q, self.h2, self.head_end())
        &&& crate::ir::laid(q, self.k2, self.colon_line())
        &&& crate::ir::sealed(q, self.a1, self.after_end())
        &&& crate::ir::takes(q, self.header, 1)
        &&& crate::ir::takes(q, self.cont, 1)
        &&& crate::ir::takes(q, self.body, 1)
        &&& crate::ir::takes(q, self.v.after, 1)
        &&& crate::ir::extends(self.h1.f, q)
        &&& crate::ir::extends(self.k1.f, q)
        &&& crate::ir::extends(self.k2.f, q)
        &&& crate::ir::extends(self.fin, q)
        &&& crate::ir::extends(self.a1.f, q)
    }

    pub open spec fn wf(self) -> bool {
        &&& self.header >= self.p0.blocks.len()
        &&& self.cont >= self.p0.blocks.len()
        &&& self.body >= self.p0.blocks.len()
        &&& self.v.after >= self.p0.blocks.len()
        &&& self.h.cur == self.header
        &&& crate::ir::size_at(self.h) == 0
        &&& self.h2.cur == self.h1.cur
        &&& crate::ir::size_at(self.h2) == crate::ir::size_at(self.h1) + 4
        &&& self.k.cur == self.body
        &&& crate::ir::size_at(self.k) == 0
        &&& self.k3.cur == self.k2.cur
        &&& crate::ir::size_at(self.k3) == crate::ir::size_at(self.k2) + 1
        &&& self.a.cur == self.v.after
        &&& crate::ir::size_at(self.a) == 0
        &&& crate::ir::open_at(self.h1)
        &&& crate::ir::open_at(self.k2)
        &&& crate::ir::extends(self.p0, self.h.f)
        &&& crate::ir::extends(self.p0, self.h1.f)
        &&& crate::ir::extends(self.p0, self.k.f)
        &&& crate::ir::extends(self.k.f, self.k1.f)
        &&& crate::ir::extends(self.k1.f, self.k2.f)
        &&& crate::ir::extends(self.k2.f, self.k3.f)
        &&& crate::ir::extends(self.p0, self.k1.f)
        &&& crate::ir::extends(self.p0, self.k2.f)
        &&& crate::ir::extends(self.p0, self.k3.f)
        &&& crate::ir::extends(self.p0, self.a.f)
        &&& crate::ir::built(self.p0, self.dst)
        &&& crate::ir::built(self.p0, self.x.end)
        &&& crate::ir::built(self.p0, self.x.sc)
        &&& crate::ir::built(self.h1.f, self.hc)
        &&& crate::ir::built(self.k1.f, self.after)
        &&& crate::ir::built(self.k1.f, self.v.kp)
        &&& crate::ir::built(self.k1.f, self.v.kl)
        &&& crate::ir::built(self.k2.f, self.v.kp)
        &&& crate::ir::built(self.k2.f, self.v.kl)
        &&& crate::ir::built(self.k2.f, self.kc)
        &&& self.v.val == crate::ir::slot(self.k2, 0)
        &&& crate::cursor::skips_space(
            self.h,
            self.h1,
            Value::Param(self.header, 0),
            self.x.end,
            self.hc,
        )
        &&& crate::span::spans(
            self.k,
            self.k1,
            Value::Param(self.body, 0),
            self.x.end,
            self.v.kp,
            self.v.kl,
            self.after,
        )
        &&& crate::cursor::skips_space(self.k1, self.k2, self.after, self.x.end, self.kc)
        &&& dispatches(
            self.tab,
            self.fields,
            0,
            self.env,
            self.k3,
            self.fin,
            self.p0,
            self.dst,
            self.v,
            self.x,
        )
        &&& crate::nodes::skips_comma(
            self.a,
            self.a1,
            Value::Param(self.v.after, 0),
            self.x.end,
            self.next,
        )
    }

    /// Whether a state is at the header with the cursor there.
    pub open spec fn at_header(self, c: Mod, a: State, d: Seq<u8>, at: int) -> bool {
        &&& crate::nodes::callable(c, self.tab)
        &&& crate::nodes::env_ok(c.tab, self.env)
        &&& a.block == self.header
        &&& a.at == 0
        &&& d.len() <= i64::MAX
        &&& 0 <= at
        &&& crate::ir::get(a.vals, Value::Param(self.header, 0)) == Some(
            crate::cursor::spot(d, at),
        )
        &&& crate::ir::get(a.vals, self.x.end) == Some(crate::cursor::spot(d, d.len() as int))
        &&& crate::ir::get(a.vals, self.x.sc) == Some(Val::Ptr(Region::Scratch, 0))
        &&& crate::leaf::place(a, self.dst)
    }

    pub open spec fn members(self, c: Mod, a: State, d: Seq<u8>, at: int) -> Option<
        (Seq<OpV>, int),
    > {
        crate::read::read_members(
            c.n,
            self.fields,
            crate::nodes::scope(c.tab, self.env),
            d,
            at,
            crate::leaf::block_of(a, self.dst),
            crate::leaf::off_of(a, self.dst) as u64,
            a.world.ops.len(),
        )
    }

    /// The header: out at the closing brace, to the body otherwise.
    proof fn lemma_head(self, c: Mod, q: FuncV, a: State, d: Seq<u8>, at: int) -> (t: State)
        requires
            self.wf(),
            self.stands_in(q),
            self.at_header(c, a, d, at),
            crate::scan::space_end(d, at) < d.len(),
        ensures
            ({
                let h = crate::scan::space_end(d, at);
                &&& at <= h
                &&& crate::ir::goes(c.m, q, a, t)
                &&& crate::ir::keeps(self.p0, a, t)
                &&& t.world == a.world
                &&& t.at == 0
                &&& d[h] == CLOSE_BRACE ==> t.block == self.cont && crate::ir::get(
                    t.vals,
                    Value::Param(self.cont, 0),
                ) == Some(crate::cursor::spot(d, h + 1))
                &&& d[h] != CLOSE_BRACE ==> t.block == self.body && crate::ir::get(
                    t.vals,
                    Value::Param(self.body, 0),
                ) == Some(crate::cursor::spot(d, h))
            }),
    {
        crate::scan::lemma_space_end(d, at);
        let h = crate::scan::space_end(d, at);
        let cur = Value::Param(self.header, 0);
        assert(crate::cursor::ready_at(c.m, q, a, self.h, self.h1, cur, self.x.end));
        let spot = crate::cursor::spot(d, h);
        let b = crate::ir::computed(c.m, q, a, self.h.f, self.h1, self.hc, spot, a.world);
        crate::ir::lemma_keeps_trans(self.p0, self.h.f, a, a, b);
        let g = Line { m: c.m, q, p0: self.p0, s0: a, o: self.h1, l: self.head_line() };
        let y = d[h];
        let v = Val::Int(y as int);
        let b0 = g.load(b, 0, v);
        let b1 = g.uextend(b0, 1, v);
        let b2 = g.test_imm(b1, 2, crate::ir::truth(y == CLOSE_BRACE));
        let b3 = g.iadd_imm(b2, 3, crate::cursor::spot(d, h + 1));
        let to = if y == CLOSE_BRACE {
            Target { block: self.cont, args: Args::One(crate::ir::slot(self.h1, 3)) }
        } else {
            Target { block: self.body, args: Args::One(self.hc) }
        };
        crate::ir::goto(c.m, q, self.p0, a, b3, self.h2, self.head_end(), to)
    }

    /// The body up to the value: the key, and the colon.
    #[verifier::spinoff_prover]
    #[verifier::rlimit(40)]
    proof fn lemma_key(self, c: Mod, q: FuncV, a: State, d: Seq<u8>, h: int) -> (t: State)
        requires
            self.wf(),
            self.stands_in(q),
            d.len() <= i64::MAX,
            0 <= h,
            a.block == self.body,
            a.at == 0,
            crate::ir::get(a.vals, Value::Param(self.body, 0)) == Some(crate::cursor::spot(d, h)),
            crate::ir::get(a.vals, self.x.end) == Some(crate::cursor::spot(d, d.len() as int)),
        ensures
            ({
                let (first, quote) = crate::scan::span(d, h);
                let val = crate::scan::space_end(d, quote + 1) + 1;
                &&& 0 <= first <= quote < val
                &&& crate::ir::goes(c.m, q, a, t)
                &&& crate::ir::keeps(self.p0, a, t)
                &&& t.world == a.world
                &&& crate::ir::stands(t, self.k3)
                &&& crate::ir::get(t.vals, self.v.kp) == Some(crate::cursor::spot(d, first))
                &&& crate::ir::get(t.vals, self.v.kl) == Some(Val::Int(quote - first))
                &&& crate::ir::get(t.vals, self.v.val) == Some(crate::cursor::spot(d, val))
            }),
    {
        let (first, quote) = crate::scan::span(d, h);
        crate::scan::lemma_space_end(d, h);
        crate::scan::lemma_quote_at(d, first);
        crate::scan::lemma_space_end(d, quote + 1);
        let cur = Value::Param(self.body, 0);
        assert(crate::cursor::ready_at(c.m, q, a, self.k, self.k1, cur, self.x.end));
        let b = crate::span::found(
            c.m,
            q,
            a,
            self.k,
            self.k1,
            cur,
            self.x.end,
            self.v.kp,
            self.v.kl,
            self.after,
        );
        crate::ir::lemma_keeps_trans(self.p0, self.k.f, a, a, b);
        assert(crate::ir::get(b.vals, self.x.end) == crate::ir::get(a.vals, self.x.end));
        assert(crate::cursor::ready_at(c.m, q, b, self.k1, self.k2, self.after, self.x.end));
        let past = crate::scan::space_end(d, quote + 1);
        let spot = crate::cursor::spot(d, past);
        let e = crate::ir::computed(c.m, q, b, self.k1.f, self.k2, self.kc, spot, b.world);
        crate::ir::go_on(c.m, q, self.p0, a, b, self.k1.f, e);
        let g = Line { m: c.m, q, p0: self.p0, s0: a, o: self.k2, l: self.colon_line() };
        let t = g.iadd_imm(e, 0, crate::cursor::spot(d, past + 1));
        assert(crate::ir::get(t.vals, self.v.kp) == crate::ir::get(e.vals, self.v.kp));
        assert(crate::ir::get(t.vals, self.v.kl) == crate::ir::get(e.vals, self.v.kl));
        t
    }

    /// The loop reads the members.
    #[verifier::spinoff_prover]
    #[verifier::rlimit(60)]
    proof fn lemma_loop(self, c: Mod, q: FuncV, a: State, d: Seq<u8>, at: int)
        requires
            self.wf(),
            self.stands_in(q),
            self.at_header(c, a, d, at),
            self.members(c, a, d, at) is Some,
            a.world.ops.len() + crate::nodes::ops_of(self.members(c, a, d, at)).len()
                <= usize::MAX,
        ensures
            arrives(
                c.m,
                q,
                a,
                self.p0,
                self.cont,
                d,
                crate::nodes::ops_of(self.members(c, a, d, at)),
                crate::nodes::end_of(self.members(c, a, d, at)),
            ),
        decreases d.len() + 2 - at,
    {
        let h = crate::scan::space_end(d, at);
        let want = self.members(c, a, d, at);
        let ops = crate::nodes::ops_of(want);
        let e = crate::nodes::end_of(want);
        let b = self.lemma_head(c, q, a, d, at);
        if d[h] == CLOSE_BRACE {
            assert(a.world.ops + Seq::<OpV>::empty() =~= a.world.ops);
            assert(arrived(a, b, self.p0, self.cont, d, ops, e));
            return ;
        }
        let (first, quote) = crate::scan::span(d, h);
        let val = crate::scan::space_end(d, quote + 1) + 1;
        let key = d.subrange(first, quote);
        assert(crate::ir::get(b.vals, self.x.end) == crate::ir::get(a.vals, self.x.end));
        let k = self.lemma_key(c, q, b, d, h);
        crate::ir::go_on(c.m, q, self.p0, a, b, self.p0, k);
        assert(crate::ir::get(k.vals, self.x.end) == crate::ir::get(a.vals, self.x.end));
        assert(crate::ir::get(k.vals, self.x.sc) == crate::ir::get(a.vals, self.x.sc));
        assert(crate::ir::get(k.vals, self.dst) == crate::ir::get(a.vals, self.dst));
        let one = member_result(
            c,
            k,
            self.fields,
            0,
            self.env,
            self.dst,
            self.v.val,
            self.x,
            key,
        );
        assert(one == crate::read::read_member(
            c.n,
            self.fields,
            crate::nodes::scope(c.tab, self.env),
            d,
            h,
            crate::leaf::block_of(a, self.dst),
            crate::leaf::off_of(a, self.dst) as u64,
            a.world.ops.len(),
        ));
        let ops1 = crate::nodes::ops_of(one);
        let e1 = crate::nodes::end_of(one);
        assert(ready_member(
            c,
            self.tab,
            q,
            k,
            self.k3,
            self.fin,
            self.fields,
            0,
            self.env,
            self.dst,
            self.v,
            self.x,
            first,
            quote,
        ));
        let r = arrival(c.m, q, k, self.p0, self.v.after, d, ops1, e1);
        crate::ir::go_on(c.m, q, self.p0, a, k, self.p0, r);
        self.lemma_end(c, k, d, val, one, key);
        let next = crate::read::comma_end(d, e1)->0;
        let cur = Value::Param(self.v.after, 0);
        assert(crate::ir::get(r.vals, self.x.end) == crate::ir::get(a.vals, self.x.end));
        assert(crate::nodes::ready_comma(c.m, q, r, self.a, self.a1, cur, self.x.end));
        let spot = crate::cursor::spot(d, next);
        let u = crate::ir::computed(c.m, q, r, self.a.f, self.a1, self.next, spot, r.world);
        crate::ir::go_on(c.m, q, self.p0, a, r, self.a.f, u);
        let back = Target { block: self.header, args: Args::One(self.next) };
        let w = crate::ir::goto(c.m, q, self.p0, a, u, self.a1, self.after_end(), back);
        assert(crate::ir::get(w.vals, self.x.end) == crate::ir::get(a.vals, self.x.end));
        assert(crate::ir::get(w.vals, self.x.sc) == crate::ir::get(a.vals, self.x.sc));
        assert(crate::ir::get(w.vals, self.dst) == crate::ir::get(a.vals, self.dst));
        assert(self.at_header(c, w, d, next));
        let more = self.members(c, w, d, next);
        self.lemma_loop(c, q, w, d, next);
        let t = arrival(
            c.m,
            q,
            w,
            self.p0,
            self.cont,
            d,
            crate::nodes::ops_of(more),
            crate::nodes::end_of(more),
        );
        crate::ir::go_on(c.m, q, self.p0, a, w, self.p0, t);
        assert(t.world.ops =~= a.world.ops + ops);
        assert(arrived(a, t, self.p0, self.cont, d, ops, e));
    }

    /// A member's value ends no earlier than it begins.
    proof fn lemma_end(
        self,
        c: Mod,
        k: State,
        d: Seq<u8>,
        val: int,
        one: Option<(Seq<OpV>, int)>,
        key: Seq<u8>,
    )
        requires
            0 <= val,
            crate::cursor::data(k, self.x.end) == d,
            crate::cursor::pos(k, self.v.val) == val,
            one == member_result(
                c,
                k,
                self.fields,
                0,
                self.env,
                self.dst,
                self.v.val,
                self.x,
                key,
            ),
            one is Some,
        ensures
            val <= crate::nodes::end_of(one),
    {
        match crate::read::field_at(self.fields, 0, key) {
            None => {
                crate::scan::lemma_value_end(d, val);
            },
            Some(i) => {
                let p = crate::interp::further(
                    crate::leaf::off_of(k, self.dst) as u64,
                    self.fields[i as int].offset as int,
                )->0;
                crate::read::lemma_read(
                    c.n,
                    self.fields[i as int].ty,
                    crate::nodes::scope(c.tab, self.env),
                    d,
                    val,
                    crate::leaf::block_of(k, self.dst),
                    p,
                    k.world.ops.len(),
                );
            },
        }
    }
}

/// The whole of a struct: `None` for what may be absent, past the opening brace,
/// and the members.
#[verifier::spinoff_prover]
#[verifier::rlimit(60)]
proof fn lemma_struct(
    c: Mod,
    q: FuncV,
    s: State,
    o: ObjectCode,
    name: Seq<char>,
    p: Point,
    p1: Point,
    p2: Point,
    z: Point,
    to: Point,
    cur: Value,
    c0: Value,
    line: Seq<Inst>,
)
    requires
        o.wf(),
        o.stands_in(q),
        line == Seq::empty().push(Inst::IaddImm(c0, 1)),
        crate::ir::laid(q, p2, line),
        crate::ir::open_at(p2),
        writes_nones(p, p1, o.fields, 0, crate::nodes::scope(c.tab, o.env), o.dst),
        crate::cursor::skips_space(p1, p2, cur, o.x.end, c0),
        crate::ir::extends(p.f, p1.f),
        crate::ir::extends(p1.f, p2.f),
        crate::ir::extends(p1.f, q),
        crate::ir::extends(p2.f, q),
        crate::ir::extends(p2.f, o.p0),
        crate::ir::built(p.f, cur),
        crate::ir::built(p.f, o.dst),
        crate::ir::built(p.f, o.x.end),
        crate::ir::built(p.f, o.x.sc),
        crate::ir::built(p2.f, c0),
        z.cur == p2.cur,
        crate::ir::size_at(z) == crate::ir::size_at(p2) + 1,
        crate::ir::sealed(
            q,
            z,
            Term::Jump(
                Target { block: o.header, args: Args::One(crate::ir::slot(p2, 0)) },
            ),
        ),
        to.cur == o.cont,
        crate::ir::size_at(to) == 0,
        crate::nodes::ready_read(
            c,
            o.tab,
            q,
            s,
            p,
            to,
            TyV::Struct { name, fields: o.fields },
            o.env,
            o.dst,
            cur,
            o.x,
        ),
    ensures
        ({
            let ty = TyV::Struct { name, fields: o.fields };
            let r = crate::nodes::result(c, s, ty, o.env, o.dst, cur, o.x);
            crate::leaf::read_to(
                c.m,
                q,
                s,
                p,
                to,
                Value::Param(o.cont, 0),
                crate::cursor::data(s, o.x.end),
                crate::nodes::ops_of(r),
                crate::nodes::end_of(r),
            )
        }),
{
    let ty = TyV::Struct { name, fields: o.fields };
    let d = crate::cursor::data(s, o.x.end);
    let at = crate::cursor::pos(s, cur);
    let r = crate::nodes::result(c, s, ty, o.env, o.dst, cur, o.x);
    let ops = crate::nodes::ops_of(r);
    let sc = crate::nodes::scope(c.tab, o.env);
    crate::scan::lemma_space_end(d, at);
    let h = crate::scan::space_end(d, at);
    assert(ready_nones(c.m, q, s, p, p1, o.fields, 0, sc, o.dst));
    let pre = nones(o.fields, 0, sc, s, o.dst)->0;
    let a = crate::ir::come(c.m, q, s, p.f, p1, crate::binder::written(s.world, pre));
    assert(crate::ir::get(a.vals, cur) == crate::ir::get(s.vals, cur));
    assert(crate::ir::get(a.vals, o.x.end) == crate::ir::get(s.vals, o.x.end));
    assert(crate::cursor::ready_at(c.m, q, a, p1, p2, cur, o.x.end));
    let b = crate::ir::computed(
        c.m,
        q,
        a,
        p1.f,
        p2,
        c0,
        crate::cursor::spot(d, h),
        a.world,
    );
    crate::ir::go_on(c.m, q, p.f, s, a, p1.f, b);
    crate::ir::lemma_extends_trans(p.f, p1.f, p2.f);
    crate::ir::lemma_extends_trans(p.f, p2.f, o.p0);
    let g = Line { m: c.m, q, p0: p.f, s0: s, o: p2, l: line };
    let b1 = g.iadd_imm(b, 0, crate::cursor::spot(d, h + 1));
    let first = Target { block: o.header, args: Args::One(crate::ir::slot(p2, 0)) };
    let e = crate::ir::goto(c.m, q, p.f, s, b1, z, Term::Jump(first), first);
    assert(crate::ir::get(e.vals, o.x.end) == crate::ir::get(s.vals, o.x.end));
    assert(crate::ir::get(e.vals, o.x.sc) == crate::ir::get(s.vals, o.x.sc));
    assert(crate::ir::get(e.vals, o.dst) == crate::ir::get(s.vals, o.dst));
    assert(o.at_header(c, e, d, h + 1));
    let more = o.members(c, e, d, h + 1);
    o.lemma_loop(c, q, e, d, h + 1);
    let t = arrival(
        c.m,
        q,
        e,
        o.p0,
        o.cont,
        d,
        crate::nodes::ops_of(more),
        crate::nodes::end_of(more),
    );
    crate::ir::go_on(c.m, q, p.f, s, e, o.p0, t);
    assert(t.world.ops =~= s.world.ops + ops);
    assert(crate::leaf::read_at(
        s,
        t,
        p,
        to,
        Value::Param(o.cont, 0),
        d,
        ops,
        crate::nodes::end_of(r),
    ));
}

/// Adds the code that reads a struct.
#[verifier::spinoff_prover]
#[verifier::rlimit(100)]
pub fn parse_struct<'a>(
    b: &mut Build,
    f: &mut FuncIr,
    Ghost(name): Ghost<Seq<char>>,
    fields: &'a Vec<FieldTy>,
    env: &Vec<(Site, usize, &'a Ty)>,
    dst: Value,
    cur: Value,
    x: &Pctx,
) -> (r: Value)
    requires
        1 + crate::plan::weight_from(crate::plan::fields_view(fields@), 0) <= crate::plan::MAX_WEIGHT,
        old(b).wf(),
        crate::nodes::env_is(old(b).tab@, env@),
        crate::leaf::can_build(*old(f), dst, cur, *x),
        crate::parser::unreadable_fields(
            crate::plan::fields_view(fields@),
            fields@.len(),
            crate::nodes::sites_of(env@),
        ) is None,
    ensures
        crate::nodes::spent(
            *old(b),
            old(f).point(),
            *final(b),
            final(f).point(),
            crate::binder::STEP * (1 + crate::plan::weight_from(crate::plan::fields_view(fields@), 0)),
            (crate::plan::recs_from(crate::plan::fields_view(fields@), 0)) as int,
        ),
        old(b).extended(*final(b)),
        crate::binder::advanced(old(f).point(), final(f).point()),
        crate::ir::built(final(f)@, r),
        crate::nodes::reads(
            final(b).tab@,
            (TyV::Struct { name, fields: crate::plan::fields_view(fields@) }),
            crate::nodes::indices(env@),
            old(f).point(),
            final(f).point(),
            dst,
            cur,
            *x,
            r,
        ),
    decreases fields, fields@.len() + 1,
{
    let ghost p = f.point();
    let ghost fs = crate::plan::fields_view(fields@);
    let ghost ix = crate::nodes::indices(env@);
    proof {
        crate::ir::lemma_laid_none(p);
    }
    emit_nones(f, fields, 0, env, dst);
    let ghost p1 = f.point();
    assert(crate::ir::extends(p1.f, p1.f));
    let c0: Value = ws(f, cur, x.end);
    let ghost p2 = f.point();
    proof {
        crate::ir::lemma_laid_none(p2);
    }
    let start: Value = f.emit(Inst::IaddImm(c0, 1));
    let ghost line = Seq::<Inst>::empty().push(Inst::IaddImm(c0, 1));
    let ghost p3 = f.point();
    proof {
        crate::ir::lemma_grows_refl(p3);
    }
    assert(crate::ir::extends(p3.f, p3.f));
    let header: usize = f.create_block(1);
    let cont: usize = f.create_block(1);
    let body: usize = f.create_block(1);
    let after: usize = f.create_block(1);
    let ghost z = f.point();
    f.end(Term::Jump(Target { block: header, args: Args::One(start) }));
    f.switch_to(header);
    let ghost h = f.point();
    let hc: Value = ws(f, Value::Param(header, 0), x.end);
    let ghost h1 = f.point();
    proof {
        crate::ir::lemma_laid_none(h1);
    }
    let byte: Value = load_u8(f, hc);
    let is_end: Value = f.emit(Inst::TestImm(Cc::Equal, byte, CLOSE_BRACE as i64));
    let past: Value = f.emit(Inst::IaddImm(hc, 1));
    let ghost h2 = f.point();
    f.end(
        Term::Brif(
            is_end,
            Target { block: cont, args: Args::One(past) },
            Target { block: body, args: Args::One(hc) },
        ),
    );
    f.switch_to(body);
    let ghost k = f.point();
    let (kp, kl, ak) = strspan(f, Value::Param(body, 0), x.end);
    let ghost k1 = f.point();
    assert(crate::ir::extends(k1.f, k1.f));
    let kc: Value = ws(f, ak, x.end);
    let ghost k2 = f.point();
    proof {
        crate::ir::lemma_laid_none(k2);
    }
    let val: Value = f.emit(Inst::IaddImm(kc, 1));
    let ghost k3 = f.point();
    emit_members(b, f, fields, 0, env, dst, kp, kl, val, after, x, Ghost(p3.f));
    let ghost fin = f@;
    assert(crate::ir::extends(fin, fin));
    f.switch_to(after);
    let ghost a = f.point();
    let next: Value = comma(f, Value::Param(after, 0), x.end);
    let ghost a1 = f.point();
    assert(crate::ir::extends(a1.f, a1.f));
    f.end(Term::Jump(Target { block: header, args: Args::One(next) }));
    f.switch_to(cont);
    let ghost to = f.point();
    let r: Value = Value::Param(cont, 0);
    let ghost o = ObjectCode {
        tab: b.tab@,
        env: ix,
        fields: fs,
        dst,
        x: *x,
        header,
        cont,
        body,
        v: Member { kp, kl, val, after },
        p0: p3.f,
        h,
        h1,
        h2,
        hc,
        k,
        k1,
        k2,
        k3,
        after: ak,
        kc,
        fin,
        a,
        a1,
        next,
    };
    proof {
        crate::ir::lemma_carried(p, to);
        assert(crate::ir::laid(to.f, p2, line));
        assert(crate::ir::laid(to.f, h1, o.head_line()));
        assert(crate::ir::laid(to.f, k2, o.colon_line()));
        assert(o.wf());
        assert(o.stands_in(to.f));
        let ty = TyV::Struct { name, fields: fs };
        lemma_types(old(b).tab@, env@);
        assert forall|c: Mod, q: FuncV, s: State| #[trigger]
            crate::nodes::ready_read(
                c,
                o.tab,
                q,
                s,
                p,
                to,
                ty,
                ix,
                dst,
                cur,
                *x,
            ) implies crate::leaf::read_to(
            c.m,
            q,
            s,
            p,
            to,
            r,
            crate::cursor::data(s, x.end),
            crate::nodes::ops_of(crate::nodes::result(c, s, ty, ix, dst, cur, *x)),
            crate::nodes::end_of(crate::nodes::result(c, s, ty, ix, dst, cur, *x)),
        ) by {
            crate::ir::lemma_has_all(to.f, q);
            assert(o.stands_in(q));
            crate::nodes::lemma_prefix_trans(old(b).tab@, o.tab, c.tab);
            crate::nodes::lemma_env_is_more(old(b).tab@, c.tab, env@);
            lemma_struct(c, q, s, o, name, p, p1, p2, z, to, cur, c0, line);
        }
    }
    r
}

// ---------------------------------------------------------------------------
// Tuples.
// ---------------------------------------------------------------------------

/// What the code for a tuple's fields from the `k`th on leads to.
pub open spec fn tuple_result(
    c: Mod,
    s: State,
    fields: Seq<FieldV>,
    k: nat,
    env: Seq<usize>,
    dst: Value,
    cur: Value,
    x: Pctx,
) -> Option<Seq<OpV>> {
    crate::read::read_tuple(
        c.n,
        fields,
        k,
        crate::nodes::scope(c.tab, env),
        crate::cursor::data(s, x.end),
        crate::cursor::pos(s, cur),
        crate::leaf::block_of(s, dst),
        crate::leaf::off_of(s, dst) as u64,
        s.world.ops.len(),
    )
}

pub open spec fn ready_tuple(
    c: Mod,
    tab: Seq<Entry>,
    q: FuncV,
    s: State,
    p: Point,
    fin: FuncV,
    fields: Seq<FieldV>,
    k: nat,
    env: Seq<usize>,
    dst: Value,
    cur: Value,
    x: Pctx,
) -> bool {
    let r = tuple_result(c, s, fields, k, env, dst, cur, x);
    &&& crate::nodes::callable(c, tab)
    &&& crate::nodes::env_ok(c.tab, env)
    &&& crate::ir::extends(fin, q)
    &&& crate::ir::stands(s, p)
    &&& crate::leaf::set_up(s, dst, cur, x)
    &&& r is Some
    &&& s.world.ops.len() + r->0.len() <= usize::MAX
}

/// Whether code has gone to a block, with some writes done and what had been
/// built unchanged.
pub open spec fn ended_at(s: State, t: State, p: FuncV, block: usize, ops: Seq<OpV>) -> bool {
    &&& crate::ir::keeps(p, s, t)
    &&& t.block == block
    &&& t.at == 0
    &&& t.world.ops == s.world.ops + ops
}

pub open spec fn ends_at(m: Seq<FuncV>, q: FuncV, s: State, p: FuncV, block: usize, ops: Seq<OpV>) -> bool {
    exists|t: State| #[trigger] crate::ir::goes(m, q, s, t) && ended_at(s, t, p, block, ops)
}

proof fn ending(m: Seq<FuncV>, q: FuncV, s: State, p: FuncV, block: usize, ops: Seq<OpV>) -> (t:
    State)
    requires
        ends_at(m, q, s, p, block, ops),
    ensures
        crate::ir::goes(m, q, s, t),
        ended_at(s, t, p, block, ops),
{
    choose|t: State| #[trigger] crate::ir::goes(m, q, s, t) && ended_at(s, t, p, block, ops)
}

/// Whether code reads a tuple's fields from the `k`th on, and goes to a block.
pub open spec fn walks(
    tab: Seq<Entry>,
    fields: Seq<FieldV>,
    k: nat,
    env: Seq<usize>,
    p: Point,
    fin: FuncV,
    dst: Value,
    cur: Value,
    x: Pctx,
    done: usize,
) -> bool {
    forall|c: Mod, q: FuncV, s: State| #[trigger]
        ready_tuple(c, tab, q, s, p, fin, fields, k, env, dst, cur, x) ==> ends_at(
            c.m,
            q,
            s,
            p.f,
            done,
            tuple_result(c, s, fields, k, env, dst, cur, x)->0,
        )
}

/// The code for one field of a tuple.
pub struct ItemCode {
    pub tab: Seq<Entry>,
    pub env: Seq<usize>,
    pub fields: Seq<FieldV>,
    pub k: nat,
    pub dst: Value,
    pub cur: Value,
    pub x: Pctx,
    pub done: usize,
    pub body: usize,
    /// The start, past white space, and the end of what comes first; the cursor.
    pub p: Point,
    pub p1: Point,
    pub z: Point,
    pub h: Value,
    /// In the body: the start, before and after the value, after a comma; the
    /// cursors there.
    pub y: Point,
    pub y1: Point,
    pub y2: Point,
    pub y3: Point,
    pub e: Value,
    pub next: Value,
    pub fin: FuncV,
}

impl ItemCode {
    pub open spec fn first_line(self) -> Seq<Inst> {
        Seq::empty()
            .push(Inst::Load { width: 1, addr: self.h, off: 0 })
            .push(Inst::Uextend(crate::ir::slot(self.p1, 0)))
            .push(Inst::TestImm(Cc::Equal, crate::ir::slot(self.p1, 1), CLOSE_BRACKET as i64))
    }

    pub open spec fn first_end(self) -> Term {
        Term::Brif(
            crate::ir::slot(self.p1, 2),
            Target { block: self.done, args: Args::Zero },
            Target { block: self.body, args: Args::Zero },
        )
    }

    pub open spec fn line(self) -> Seq<Inst> {
        crate::nodes::place_line(self.y, self.dst, self.fields[self.k as int].offset as i64)
    }

    pub open spec fn stands_in(self, q: FuncV) -> bool {
        &&& crate::ir::laid(q, self.p1, self.first_line())
        &&& crate::ir::sealed(q, self.z, self.first_end())
        &&& crate::ir::laid(q, self.y, self.line())
        &&& crate::ir::takes(q, self.done, 0)
        &&& crate::ir::takes(q, self.body, 0)
        &&& crate::ir::extends(self.p1.f, q)
        &&& crate::ir::extends(self.y2.f, q)
        &&& crate::ir::extends(self.y3.f, q)
        &&& crate::ir::extends(self.fin, q)
    }

    pub open spec fn wf(self) -> bool {
        &&& self.k < self.fields.len()
        &&& self.fields[self.k as int].offset <= i64::MAX
        &&& self.z.cur == self.p1.cur
        &&& crate::ir::size_at(self.z) == crate::ir::size_at(self.p1) + 3
        &&& self.y.cur == self.body
        &&& crate::ir::size_at(self.y) == 0
        &&& self.y1.cur == self.body
        &&& crate::ir::size_at(self.y1) == 2
        &&& crate::ir::open_at(self.p1)
        &&& crate::ir::open_at(self.y)
        &&& crate::ir::extends(self.p.f, self.p1.f)
        &&& crate::ir::extends(self.p1.f, self.y.f)
        &&& crate::ir::extends(self.y.f, self.y1.f)
        &&& crate::ir::extends(self.y1.f, self.y2.f)
        &&& crate::ir::extends(self.y2.f, self.y3.f)
        &&& crate::ir::built(self.p.f, self.dst)
        &&& crate::ir::built(self.p.f, self.x.end)
        &&& crate::ir::built(self.p.f, self.x.sc)
        &&& crate::ir::built(self.p1.f, self.h)
        &&& crate::ir::built(self.y2.f, self.e)
        &&& crate::cursor::skips_space(self.p, self.p1, self.cur, self.x.end, self.h)
        &&& crate::nodes::reads(
            self.tab,
            self.fields[self.k as int].ty,
            self.env,
            self.y1,
            self.y2,
            crate::ir::slot(self.y, 1),
            self.h,
            self.x,
            self.e,
        )
        &&& crate::nodes::skips_comma(self.y2, self.y3, self.e, self.x.end, self.next)
        &&& walks(
            self.tab,
            self.fields,
            self.k + 1,
            self.env,
            self.y3,
            self.fin,
            self.dst,
            self.next,
            self.x,
            self.done,
        )
    }

    pub open spec fn ready(self, c: Mod, q: FuncV, s: State) -> bool {
        ready_tuple(
            c,
            self.tab,
            q,
            s,
            self.p,
            self.fin,
            self.fields,
            self.k,
            self.env,
            self.dst,
            self.cur,
            self.x,
        )
    }

    pub open spec fn want(self, c: Mod, s: State) -> Option<Seq<OpV>> {
        tuple_result(c, s, self.fields, self.k, self.env, self.dst, self.cur, self.x)
    }

    proof fn lemma_first(self, c: Mod, q: FuncV, s: State) -> (t: State)
        requires
            self.wf(),
            self.stands_in(q),
            self.ready(c, q, s),
        ensures
            ({
                let d = crate::cursor::data(s, self.x.end);
                let h = crate::scan::space_end(d, crate::cursor::pos(s, self.cur));
                &&& 0 <= h < d.len()
                &&& crate::ir::goes(c.m, q, s, t)
                &&& crate::ir::keeps(self.p.f, s, t)
                &&& t.world == s.world
                &&& t.at == 0
                &&& t.block == (if d[h] == CLOSE_BRACKET {
                    self.done
                } else {
                    self.body
                })
                &&& crate::ir::get(t.vals, self.h) == Some(crate::cursor::spot(d, h))
            }),
    {
        let d = crate::cursor::data(s, self.x.end);
        let at = crate::cursor::pos(s, self.cur);
        crate::scan::lemma_space_end(d, at);
        let h = crate::scan::space_end(d, at);
        assert(crate::cursor::ready_at(c.m, q, s, self.p, self.p1, self.cur, self.x.end));
        let spot = crate::cursor::spot(d, h);
        let a = crate::ir::computed(c.m, q, s, self.p.f, self.p1, self.h, spot, s.world);
        let g = Line {
            m: c.m,
            q,
            p0: self.p.f,
            s0: s,
            o: self.p1,
            l: self.first_line(),
        };
        let y = d[h];
        let v = Val::Int(y as int);
        let b0 = g.load(a, 0, v);
        let b1 = g.uextend(b0, 1, v);
        let b2 = g.test_imm(b1, 2, crate::ir::truth(y == CLOSE_BRACKET));
        let to = Target {
            block: (if y == CLOSE_BRACKET {
                self.done
            } else {
                self.body
            }),
            args: Args::Zero,
        };
        crate::ir::goto(c.m, q, self.p.f, s, b2, self.z, self.first_end(), to)
    }

    #[verifier::spinoff_prover]
    #[verifier::rlimit(80)]
    proof fn lemma_all(self, c: Mod, q: FuncV, s: State)
        requires
            self.wf(),
            self.stands_in(q),
            self.ready(c, q, s),
        ensures
            ends_at(c.m, q, s, self.p.f, self.done, self.want(c, s)->0),
    {
        let d = crate::cursor::data(s, self.x.end);
        let h = crate::scan::space_end(d, crate::cursor::pos(s, self.cur));
        let want = self.want(c, s)->0;
        let field = self.fields[self.k as int];
        let a = self.lemma_first(c, q, s);
        if d[h] == CLOSE_BRACKET {
            assert(s.world.ops + Seq::<OpV>::empty() =~= s.world.ops);
            assert(ended_at(s, a, self.p.f, self.done, want));
            return ;
        }
        let fdst = crate::ir::slot(self.y, 1);
        crate::ir::lemma_extends_trans(self.p.f, self.p1.f, self.y.f);
        crate::ir::lemma_extends_trans(self.p.f, self.y.f, self.y1.f);
        crate::ir::lemma_extends_trans(self.p.f, self.y1.f, self.y2.f);
        crate::ir::lemma_extends_trans(self.p.f, self.y2.f, self.y3.f);
        crate::ir::lemma_built(self.p.f, self.y.f, self.dst);
        crate::ir::lemma_built(self.p1.f, self.y.f, self.h);
        assert(crate::ir::get(a.vals, self.dst) == crate::ir::get(s.vals, self.dst));
        let b = crate::nodes::lemma_place(
            c.m,
            q,
            self.p.f,
            s,
            a,
            self.y,
            self.dst,
            field.offset,
            self.line(),
        );
        assert(crate::ir::get(b.vals, self.h) == crate::ir::get(a.vals, self.h));
        assert(crate::ir::get(b.vals, self.x.end) == crate::ir::get(s.vals, self.x.end));
        assert(crate::ir::get(b.vals, self.x.sc) == crate::ir::get(s.vals, self.x.sc));
        let r = crate::nodes::result(c, b, field.ty, self.env, fdst, self.h, self.x);
        assert(crate::nodes::ready_read(
            c,
            self.tab,
            q,
            b,
            self.y1,
            self.y2,
            field.ty,
            self.env,
            fdst,
            self.h,
            self.x,
        ));
        let ops = crate::nodes::ops_of(r);
        let e = crate::nodes::end_of(r);
        crate::read::lemma_read(
            c.n,
            field.ty,
            crate::nodes::scope(c.tab, self.env),
            d,
            h,
            crate::leaf::block_of(b, fdst),
            crate::leaf::off_of(b, fdst) as u64,
            b.world.ops.len(),
        );
        let u = crate::leaf::read_got(c.m, q, b, self.y1, self.y2, self.e, d, ops, e);
        crate::ir::go_on(c.m, q, self.p.f, s, b, self.y1.f, u);
        assert(crate::ir::get(u.vals, self.x.end) == crate::ir::get(s.vals, self.x.end));
        assert(crate::nodes::ready_comma(
            c.m,
            q,
            u,
            self.y2,
            self.y3,
            self.e,
            self.x.end,
        ));
        let next = crate::read::comma_end(d, e)->0;
        crate::scan::lemma_space_end(d, e);
        let spot = crate::cursor::spot(d, next);
        let w = crate::ir::computed(c.m, q, u, self.y2.f, self.y3, self.next, spot, u.world);
        crate::ir::go_on(c.m, q, self.p.f, s, u, self.y2.f, w);
        assert(crate::ir::get(w.vals, self.x.end) == crate::ir::get(s.vals, self.x.end));
        assert(crate::ir::get(w.vals, self.x.sc) == crate::ir::get(s.vals, self.x.sc));
        assert(crate::ir::get(w.vals, self.dst) == crate::ir::get(s.vals, self.dst));
        let more = tuple_result(
            c,
            w,
            self.fields,
            self.k + 1,
            self.env,
            self.dst,
            self.next,
            self.x,
        );
        assert(ready_tuple(
            c,
            self.tab,
            q,
            w,
            self.y3,
            self.fin,
            self.fields,
            self.k + 1,
            self.env,
            self.dst,
            self.next,
            self.x,
        ));
        let t = ending(c.m, q, w, self.y3.f, self.done, more->0);
        crate::ir::go_on(c.m, q, self.p.f, s, w, self.y3.f, t);
        assert(t.world.ops =~= s.world.ops + want);
        assert(ended_at(s, t, self.p.f, self.done, want));
    }
}

/// Adds the code that reads a tuple's fields from the `k`th on, and ends the
/// block by going to another.
#[verifier::spinoff_prover]
#[verifier::rlimit(100)]
fn emit_tuple<'a>(
    b: &mut Build,
    f: &mut FuncIr,
    fields: &'a Vec<FieldTy>,
    k: usize,
    env: &Vec<(Site, usize, &'a Ty)>,
    dst: Value,
    cur: Value,
    x: &Pctx,
    done: usize,
)
    requires
        crate::plan::weight_from(crate::plan::fields_view(fields@), k as nat) <= crate::plan::MAX_WEIGHT,
        k <= fields@.len(),
        old(b).wf(),
        crate::nodes::env_is(old(b).tab@, env@),
        crate::parser::unreadable_fields(
            crate::plan::fields_view(fields@),
            fields@.len(),
            crate::nodes::sites_of(env@),
        ) is None,
        crate::leaf::can_build(*old(f), dst, cur, *x),
        done != old(f).cur,
        crate::ir::takes(old(f)@, done, 0),
    ensures
        crate::nodes::spent(
            *old(b),
            old(f).point(),
            *final(b),
            final(f).point(),
            crate::binder::STEP * (crate::plan::weight_from(crate::plan::fields_view(fields@), k as nat)) + 100,
            (crate::plan::recs_from(crate::plan::fields_view(fields@), k as nat)) as int,
        ),
        old(b).extended(*final(b)),
        crate::keys::went_on(old(f).point(), final(f).point()),
        walks(
            final(b).tab@,
            crate::plan::fields_view(fields@),
            k as nat,
            crate::nodes::indices(env@),
            old(f).point(),
            final(f)@,
            dst,
            cur,
            *x,
            done,
        ),
    decreases fields, fields@.len() - k,
{
    let ghost p = f.point();
    let ghost fs = crate::plan::fields_view(fields@);
    let ghost ix = crate::nodes::indices(env@);
    proof {
        crate::ir::lemma_laid_none(p);
    }
    if k == fields.len() {
        let last = Target { block: done, args: Args::Zero };
        f.end(Term::Jump(last));
        let ghost fin = f@;
        proof {
            crate::ir::lemma_carried(p, f.point());
            assert forall|c: Mod, q: FuncV, s: State| #[trigger]
                ready_tuple(
                    c,
                    b.tab@,
                    q,
                    s,
                    p,
                    fin,
                    fs,
                    k as nat,
                    ix,
                    dst,
                    cur,
                    *x,
                ) implies ends_at(
                c.m,
                q,
                s,
                p.f,
                done,
                tuple_result(c, s, fs, k as nat, ix, dst, cur, *x)->0,
            ) by {
                crate::ir::lemma_has_all(fin, q);
                crate::ir::lemma_goes_refl(c.m, q, s);
                let t = crate::ir::goto(c.m, q, p.f, s, s, p, Term::Jump(last), last);
                assert(s.world.ops + Seq::<OpV>::empty() =~= s.world.ops);
                assert(ended_at(
                    s,
                    t,
                    p.f,
                    done,
                    tuple_result(c, s, fs, k as nat, ix, dst, cur, *x)->0,
                ));
            }
        }
        return ;
    }
    proof {
        assert(decreases_to!(*fields => fields@));
        assert(decreases_to!(fields@ => fields@[k as int]));
        assert(decreases_to!(fields@[k as int] => fields@[k as int].ty));
        assert(fs[k as int] == fields@[k as int]@);
        crate::parser::lemma_unreadable_fields(
            fs,
            fields@.len(),
            crate::nodes::sites_of(env@),
            k as int,
        );
    }
    let field = &fields[k];
    let h: Value = ws(f, cur, x.end);
    let ghost p1 = f.point();
    proof {
        crate::ir::lemma_laid_none(p1);
    }
    let byte: Value = load_u8(f, h);
    let is_end: Value = f.emit(Inst::TestImm(Cc::Equal, byte, CLOSE_BRACKET as i64));
    let body: usize = f.create_block(0);
    let ghost z = f.point();
    f.end(
        Term::Brif(
            is_end,
            Target { block: done, args: Args::Zero },
            Target { block: body, args: Args::Zero },
        ),
    );
    f.switch_to(body);
    let ghost y = f.point();
    let off: Value = f.emit(Inst::Iconst(field.offset as i64));
    let fdst: Value = f.emit(Inst::Iadd(dst, off));
    let ghost y1 = f.point();
    assert(crate::ir::extends(y1.f, y1.f));
    let e: Value = parse(b, f, &field.ty, env, fdst, h, x);
    let ghost tab1 = b.tab@;
    let ghost b1 = *b;
    let ghost y2 = f.point();
    assert(crate::ir::extends(y2.f, y2.f));
    let next: Value = comma(f, e, x.end);
    let ghost y3 = f.point();
    assert(crate::ir::extends(y3.f, y3.f));
    proof {
        crate::nodes::lemma_env_is_more(old(b).tab@, b.tab@, env@);
    }
    emit_tuple(b, f, fields, k + 1, env, dst, next, x, done);
    let ghost fin = f@;
    let ghost w = ItemCode {
        tab: b.tab@,
        env: ix,
        fields: fs,
        k: k as nat,
        dst,
        cur,
        x: *x,
        done,
        body,
        p,
        p1,
        z,
        h,
        y,
        y1,
        y2,
        y3,
        e,
        next,
        fin,
    };
    proof {
        crate::ir::lemma_carried(p, f.point());
        crate::nodes::lemma_extended_trans(*old(b), b1, *b);
        crate::nodes::lemma_reads_more(
            tab1,
            b.tab@,
            fs[k as int].ty,
            ix,
            y1,
            y2,
            fdst,
            h,
            *x,
            e,
        );
        assert(crate::ir::laid(fin, p1, w.first_line()));
        assert(crate::ir::laid(fin, y, w.line()));
        assert(crate::ir::extends(fin, fin));
        assert(w.wf());
        assert(w.stands_in(fin));
        assert forall|c: Mod, q: FuncV, s: State| #[trigger]
            ready_tuple(
                c,
                b.tab@,
                q,
                s,
                p,
                fin,
                fs,
                k as nat,
                ix,
                dst,
                cur,
                *x,
            ) implies ends_at(
            c.m,
            q,
            s,
            p.f,
            done,
            tuple_result(c, s, fs, k as nat, ix, dst, cur, *x)->0,
        ) by {
            crate::ir::lemma_has_all(fin, q);
            assert(w.stands_in(q));
            assert(w.ready(c, q, s));
            w.lemma_all(c, q, s);
        }
    }
}

#[verifier::spinoff_prover]
#[verifier::rlimit(60)]
proof fn lemma_tuple(
    c: Mod,
    tab: Seq<Entry>,
    env: Seq<usize>,
    q: FuncV,
    s: State,
    p: Point,
    p1: Point,
    p2: Point,
    p3: Point,
    fin: FuncV,
    to: Point,
    fields: Seq<FieldV>,
    dst: Value,
    cur: Value,
    x: Pctx,
    c0: Value,
    line: Seq<Inst>,
    line2: Seq<Inst>,
    done: usize,
)
    requires
        line == Seq::empty().push(Inst::Call(Shim::Skip, Args::Two(cur, x.end))),
        crate::ir::laid(q, p, line),
        crate::ir::open_at(p),
        p1.cur == p.cur,
        crate::ir::size_at(p1) == crate::ir::size_at(p) + 1,
        crate::cursor::skips_space(p1, p2, cur, x.end, c0),
        line2 == Seq::empty().push(Inst::IaddImm(c0, 1)),
        crate::ir::laid(q, p2, line2),
        crate::ir::open_at(p2),
        p3.cur == p2.cur,
        crate::ir::size_at(p3) == crate::ir::size_at(p2) + 1,
        crate::ir::extends(p.f, p1.f),
        crate::ir::extends(p1.f, p2.f),
        crate::ir::extends(p2.f, p3.f),
        crate::ir::extends(p2.f, q),
        crate::ir::extends(fin, q),
        crate::ir::built(p.f, dst),
        crate::ir::built(p.f, cur),
        crate::ir::built(p.f, x.end),
        crate::ir::built(p.f, x.sc),
        crate::ir::built(p1.f, crate::ir::slot(p, 0)),
        crate::ir::built(p2.f, c0),
        walks(tab, fields, 0, env, p3, fin, dst, crate::ir::slot(p2, 0), x, done),
        to.cur == done,
        crate::ir::size_at(to) == 0,
        crate::nodes::ready_read(c, tab, q, s, p, to, TyV::Tuple { fields }, env, dst, cur, x),
    ensures
        ({
            let r = crate::nodes::result(c, s, TyV::Tuple { fields }, env, dst, cur, x);
            crate::leaf::read_to(
                c.m,
                q,
                s,
                p,
                to,
                crate::ir::slot(p, 0),
                crate::cursor::data(s, x.end),
                crate::nodes::ops_of(r),
                crate::nodes::end_of(r),
            )
        }),
{
    let r = crate::nodes::result(c, s, TyV::Tuple { fields }, env, dst, cur, x);
    let d = crate::cursor::data(s, x.end);
    let at = crate::cursor::pos(s, cur);
    let ops = crate::nodes::ops_of(r);
    let e = crate::nodes::end_of(r);
    crate::scan::lemma_space_end(d, at);
    let h = crate::scan::space_end(d, at);
    let fin_val = crate::ir::slot(p, 0);
    let g = Line { m: c.m, q, p0: p.f, s0: s, o: p, l: line };
    g.begin(s);
    let a = g.call_two(s, 0, crate::cursor::spot(d, e), s.world);
    assert(crate::ir::get(a.vals, cur) == crate::ir::get(s.vals, cur));
    assert(crate::ir::get(a.vals, x.end) == crate::ir::get(s.vals, x.end));
    assert(crate::cursor::ready_at(c.m, q, a, p1, p2, cur, x.end));
    let b = crate::ir::computed(
        c.m,
        q,
        a,
        p1.f,
        p2,
        c0,
        crate::cursor::spot(d, h),
        a.world,
    );
    crate::ir::go_on(c.m, q, p.f, s, a, p1.f, b);
    crate::ir::lemma_extends_trans(p.f, p1.f, p2.f);
    crate::ir::lemma_extends_trans(p.f, p2.f, p3.f);
    crate::ir::lemma_built(p1.f, p2.f, fin_val);
    crate::ir::lemma_built(p2.f, p3.f, fin_val);
    let g2 = Line { m: c.m, q, p0: p.f, s0: s, o: p2, l: line2 };
    let b1 = g2.iadd_imm(b, 0, crate::cursor::spot(d, h + 1));
    let first = crate::ir::slot(p2, 0);
    assert(crate::ir::get(b1.vals, x.end) == crate::ir::get(s.vals, x.end));
    assert(crate::ir::get(b1.vals, x.sc) == crate::ir::get(s.vals, x.sc));
    assert(crate::ir::get(b1.vals, dst) == crate::ir::get(s.vals, dst));
    assert(crate::ir::get(b1.vals, fin_val) == crate::ir::get(a.vals, fin_val));
    assert(ready_tuple(c, tab, q, b1, p3, fin, fields, 0, env, dst, first, x));
    let t = ending(c.m, q, b1, p3.f, done, ops);
    crate::ir::go_on(c.m, q, p.f, s, b1, p3.f, t);
    assert(crate::ir::get(t.vals, fin_val) == crate::ir::get(b1.vals, fin_val));
    assert(crate::leaf::read_at(s, t, p, to, fin_val, d, ops, e));
}

/// Adds the code that reads a tuple: an array's items, position by position.
#[verifier::spinoff_prover]
#[verifier::rlimit(80)]
pub fn parse_tuple<'a>(
    b: &mut Build,
    f: &mut FuncIr,
    fields: &'a Vec<FieldTy>,
    env: &Vec<(Site, usize, &'a Ty)>,
    dst: Value,
    cur: Value,
    x: &Pctx,
) -> (r: Value)
    requires
        1 + crate::plan::weight_from(crate::plan::fields_view(fields@), 0) <= crate::plan::MAX_WEIGHT,
        old(b).wf(),
        crate::nodes::env_is(old(b).tab@, env@),
        crate::leaf::can_build(*old(f), dst, cur, *x),
        crate::parser::unreadable_fields(
            crate::plan::fields_view(fields@),
            fields@.len(),
            crate::nodes::sites_of(env@),
        ) is None,
    ensures
        crate::nodes::spent(
            *old(b),
            old(f).point(),
            *final(b),
            final(f).point(),
            crate::binder::STEP * (1 + crate::plan::weight_from(crate::plan::fields_view(fields@), 0)),
            (crate::plan::recs_from(crate::plan::fields_view(fields@), 0)) as int,
        ),
        old(b).extended(*final(b)),
        crate::binder::advanced(old(f).point(), final(f).point()),
        crate::ir::built(final(f)@, r),
        crate::nodes::reads(
            final(b).tab@,
            (TyV::Tuple { fields: crate::plan::fields_view(fields@) }),
            crate::nodes::indices(env@),
            old(f).point(),
            final(f).point(),
            dst,
            cur,
            *x,
            r,
        ),
    decreases fields, fields@.len() + 1,
{
    let ghost p = f.point();
    let ghost fs = crate::plan::fields_view(fields@);
    let ghost ix = crate::nodes::indices(env@);
    proof {
        crate::ir::lemma_laid_none(p);
    }
    let r: Value = f.emit(Inst::Call(Shim::Skip, Args::Two(cur, x.end)));
    let ghost line = Seq::<Inst>::empty().push(Inst::Call(Shim::Skip, Args::Two(cur, x.end)));
    let ghost p1 = f.point();
    assert(crate::ir::laid(f@, p, line));
    let c0: Value = ws(f, cur, x.end);
    let ghost p2 = f.point();
    proof {
        crate::ir::lemma_laid_none(p2);
    }
    let first: Value = f.emit(Inst::IaddImm(c0, 1));
    let ghost line2 = Seq::<Inst>::empty().push(Inst::IaddImm(c0, 1));
    assert(crate::ir::laid(f@, p2, line2));
    let done: usize = f.create_block(0);
    let ghost p3 = f.point();
    emit_tuple(b, f, fields, 0, env, dst, first, x, done);
    let ghost fin = f@;
    assert(crate::ir::extends(fin, fin));
    f.switch_to(done);
    let ghost to = f.point();
    proof {
        crate::ir::lemma_carried(p, to);
        let ty = TyV::Tuple { fields: fs };
        let tab = b.tab@;
        assert forall|c: Mod, q: FuncV, s: State| #[trigger]
            crate::nodes::ready_read(
                c,
                tab,
                q,
                s,
                p,
                to,
                ty,
                ix,
                dst,
                cur,
                *x,
            ) implies crate::leaf::read_to(
            c.m,
            q,
            s,
            p,
            to,
            r,
            crate::cursor::data(s, x.end),
            crate::nodes::ops_of(crate::nodes::result(c, s, ty, ix, dst, cur, *x)),
            crate::nodes::end_of(crate::nodes::result(c, s, ty, ix, dst, cur, *x)),
        ) by {
            crate::ir::lemma_has_all(to.f, q);
            lemma_tuple(
                c,
                tab,
                ix,
                q,
                s,
                p,
                p1,
                p2,
                p3,
                fin,
                to,
                fs,
                dst,
                cur,
                *x,
                c0,
                line,
                line2,
                done,
            );
        }
    }
    r
}

} // verus!
