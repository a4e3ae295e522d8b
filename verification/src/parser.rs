//! Compiling a parser: code that reads raw JSON as one type and lays it out, with
//! every offset, size and key built in. No document is built in between.
use crate::arrays::parse_vec;
use crate::ascii::LOWER_N;
use crate::binder::{store_at, CompileError};
use crate::cursor::{load_u8, ws};
use crate::interp::{Block, OpV};
use crate::ir::{
    Args, Cc, FuncIr, FuncV, Inst, Point, Region, Shim, State, Target, Term, Val, Value, World,
};
use crate::leaf::{
    parse_bool, parse_char, parse_float, parse_int, parse_str, parse_str_ref, parse_unit, Pctx,
};
use crate::maps::parse_map;
use crate::members::{inside, parse_struct, parse_tuple};
use crate::nodes::{write_disc, Build, Entry, Mod};
use crate::plan::{FieldTy, FieldV, SeqLayout, Site, Ty, TyV};
use crate::steps::Line;
use crate::text::bytes_of;
use vstd::prelude::*;
use vstd::utf8::*;

verus! {

/// Why no parser can be compiled for a type, where none can and those sites are
/// around it.
pub open spec fn unreadable(ty: TyV, sites: Seq<Site>) -> Option<CompileError>
    decreases ty, 0nat,
{
    match ty {
        TyV::Bool | TyV::Char | TyV::U(_) | TyV::I(_) | TyV::F32 | TyV::F64 | TyV::Unit => None,
        TyV::Str(seq) => if crate::binder::near(seq) {
            None
        } else {
            Some(CompileError::Offset)
        },
        TyV::StrRef { ptr_off, len_off } => if ptr_off <= i32::MAX && len_off <= i32::MAX {
            None
        } else {
            Some(CompileError::Offset)
        },
        TyV::Struct { name, fields } => unreadable_fields(fields, fields.len(), sites),
        TyV::Tuple { fields } => unreadable_fields(fields, fields.len(), sites),
        TyV::Vec { elem, elem_size, elem_align, seq } => if elem_size > i64::MAX || elem_align > i64::MAX || !crate::binder::near(seq) {
            Some(CompileError::Offset)
        } else {
            unreadable(*elem, sites)
        },
        TyV::Opt { disc_off, disc_size, none_discr, some_discr, payload_off, size, inner } => if !crate::read::disc_ok(
            disc_size,
        ) {
            Some(CompileError::Unsupported)
        } else if disc_off > i32::MAX || payload_off > i64::MAX {
            Some(CompileError::Offset)
        } else {
            unreadable(*inner, sites)
        },
        TyV::Boxed { inner, size, align } => if size > i64::MAX || align > i64::MAX {
            Some(CompileError::Offset)
        } else {
            unreadable(*inner, sites)
        },
        TyV::BTreeMap { key, key_size, val, val_size, new_at, insert } => match *key {
            TyV::Str(seq) => if !crate::binder::near(seq) || key_size > i64::MAX || val_size > i64::MAX || new_at
                > i64::MAX || insert > i64::MAX {
                Some(CompileError::Offset)
            } else {
                unreadable(*val, sites)
            },
            _ => Some(CompileError::Unsupported),
        },
        TyV::Rec { site, body } => unreadable(*body, sites.push(site)),
        TyV::Ref(site) => if sites.contains(site) {
            None
        } else {
            Some(CompileError::Unbound)
        },
        _ => Some(CompileError::Unsupported),
    }
}

/// Why one of the first `n` fields cannot be read: the first of them.
pub open spec fn unreadable_fields(fields: Seq<FieldV>, n: nat, sites: Seq<Site>) -> Option<
    CompileError,
>
    decreases fields, n,
{
    if n == 0 || n > fields.len() {
        None
    } else {
        match unreadable_fields(fields, (n - 1) as nat, sites) {
            Some(e) => Some(e),
            None => {
                let f = fields[n - 1];
                if f.offset > i64::MAX || encode_utf8(f.name).len() > i32::MAX {
                    Some(CompileError::Offset)
                } else {
                    unreadable(f.ty, sites)
                }
            },
        }
    }
}

pub proof fn lemma_unreadable_fields(fields: Seq<FieldV>, n: nat, sites: Seq<Site>, k: int)
    requires
        unreadable_fields(fields, n, sites) is None,
        0 <= k < n <= fields.len(),
    ensures
        fields[k].offset <= i64::MAX,
        encode_utf8(fields[k].name).len() <= i32::MAX,
        unreadable(fields[k].ty, sites) is None,
    decreases n,
{
    if k < n - 1 {
        lemma_unreadable_fields(fields, (n - 1) as nat, sites, k);
    }
}

fn has_site(sites: &Vec<Site>, site: Site) -> (r: bool)
    ensures
        r == sites@.contains(site),
{
    let mut k: usize = 0;
    while k < sites.len()
        invariant
            k <= sites@.len(),
            forall|i: int| 0 <= i < k ==> sites@[i] != site,
        decreases sites@.len() - k,
    {
        if sites[k] == site {
            return true;
        }
        k = k + 1;
    }
    false
}

/// The layout of a map's keys, where they are strings.
fn key_words(key: &Ty) -> (r: Option<SeqLayout>)
    ensures
        match key@ {
            TyV::Str(seq) => r == Some(seq),
            _ => r is None,
        },
{
    match key {
        Ty::Str(seq) => Some(*seq),
        _ => None,
    }
}

/// Why no parser can be compiled for a type, where none can and those sites are
/// around it.
pub fn check(ty: &Ty, sites: &Vec<Site>) -> (r: Option<CompileError>)
    ensures
        r == unreadable(ty@, sites@),
    decreases ty,
{
    let max: u64 = 0x7fff_ffff_ffff_ffff;
    match ty {
        Ty::Bool | Ty::Char | Ty::U(_) | Ty::I(_) | Ty::F32 | Ty::F64 | Ty::Unit => None,
        Ty::Str(seq) => if crate::binder::is_near(seq) {
            None
        } else {
            Some(CompileError::Offset)
        },
        Ty::StrRef { ptr_off, len_off } => if *ptr_off <= 0x7fff_ffff && *len_off <= 0x7fff_ffff {
            None
        } else {
            Some(CompileError::Offset)
        },
        Ty::Struct { name, fields } => check_fields(fields, sites),
        Ty::Tuple { fields } => check_fields(fields, sites),
        Ty::Vec { elem, elem_size, elem_align, seq } => if *elem_size > max || *elem_align > max || !crate::binder::is_near(seq) {
            Some(CompileError::Offset)
        } else {
            check(elem, sites)
        },
        Ty::Opt { disc_off, disc_size, none_discr, some_discr, payload_off, size, inner } => if !(
        *disc_size == 1 || *disc_size == 2 || *disc_size == 4 || *disc_size == 8) {
            Some(CompileError::Unsupported)
        } else if *disc_off > 0x7fff_ffff || !crate::binder::offset_fits(*payload_off) {
            Some(CompileError::Offset)
        } else {
            check(inner, sites)
        },
        Ty::Boxed { inner, size, align } => if *size > max || *align > max {
            Some(CompileError::Offset)
        } else {
            check(inner, sites)
        },
        Ty::BTreeMap { key, key_size, val, val_size, new_at, insert } => match key_words(key) {
            Some(seq) => if !crate::binder::is_near(&seq) || *key_size > max || *val_size > max || *new_at
                > max || *insert > max {
                Some(CompileError::Offset)
            } else {
                check(val, sites)
            },
            None => Some(CompileError::Unsupported),
        },
        Ty::Rec { site, body } => {
            let mut more: Vec<Site> = Vec::new();
            let mut k: usize = 0;
            while k < sites.len()
                invariant
                    k <= sites@.len(),
                    more@ == sites@.take(k as int),
                decreases sites@.len() - k,
            {
                more.push(sites[k]);
                assert(more@ =~= sites@.take(k + 1));
                k = k + 1;
            }
            more.push(*site);
            assert(more@ =~= sites@.push(*site));
            check(body, &more)
        },
        Ty::Ref(site) => if has_site(sites, *site) {
            None
        } else {
            Some(CompileError::Unbound)
        },
        _ => Some(CompileError::Unsupported),
    }
}

fn check_fields(fields: &Vec<FieldTy>, sites: &Vec<Site>) -> (r: Option<CompileError>)
    ensures
        r == unreadable_fields(crate::plan::fields_view(fields@), fields@.len(), sites@),
    decreases fields,
{
    let mut r: Option<CompileError> = None;
    let mut k: usize = 0;
    while k < fields.len()
        invariant
            k <= fields@.len(),
            r == unreadable_fields(crate::plan::fields_view(fields@), k as nat, sites@),
        decreases fields@.len() - k,
    {
        assert(decreases_to!(*fields => fields@));
        assert(decreases_to!(fields@ => fields@[k as int]));
        assert(decreases_to!(fields@[k as int] => fields@[k as int].ty));
        assert(crate::plan::fields_view(fields@)[k as int] == fields@[k as int]@);
        if r.is_none() {
            let f = &fields[k];
            let name: Vec<u8> = bytes_of(f.name.as_str());
            r = if !crate::binder::offset_fits(f.offset) || name.len() > 0x7fff_ffff {
                Some(CompileError::Offset)
            } else {
                check(&f.ty, sites)
            };
        }
        k = k + 1;
    }
    r
}

// ---------------------------------------------------------------------------
// Option.
// ---------------------------------------------------------------------------

/// The code of an `Option`.
pub struct OptCode {
    pub tab: Seq<Entry>,
    pub env: Seq<usize>,
    pub ty: TyV,
    pub dst: Value,
    pub cur: Value,
    pub x: Pctx,
    /// The cursor past white space, and the one after the payload.
    pub c: Value,
    pub e: Value,
    pub none: usize,
    pub some: usize,
    pub cont: usize,
    /// The start, past white space, and the end of what comes first.
    pub p: Point,
    pub p1: Point,
    pub z: Point,
    /// For `None`: the start, after the discriminant, and the end.
    pub np: Point,
    pub np1: Point,
    pub np2: Point,
    /// For a payload: the start, before and after the payload, and the end.
    pub sp: Point,
    pub sp1: Point,
    pub sp2: Point,
    pub sp3: Point,
    pub to: Point,
}

impl OptCode {
    pub open spec fn first_line(self) -> Seq<Inst> {
        Seq::empty()
            .push(Inst::Load { width: 1, addr: self.c, off: 0 })
            .push(Inst::Uextend(crate::ir::slot(self.p1, 0)))
            .push(Inst::TestImm(Cc::Equal, crate::ir::slot(self.p1, 1), LOWER_N as i64))
    }

    pub open spec fn first_end(self) -> Term {
        Term::Brif(
            crate::ir::slot(self.p1, 2),
            Target { block: self.none, args: Args::Zero },
            Target { block: self.some, args: Args::Zero },
        )
    }

    pub open spec fn none_line(self) -> Seq<Inst> {
        Seq::empty().push(Inst::IaddImm(self.c, 4))
    }

    pub open spec fn none_end(self) -> Term {
        Term::Jump(Target { block: self.cont, args: Args::One(crate::ir::slot(self.np1, 0)) })
    }

    pub open spec fn some_line(self) -> Seq<Inst> {
        crate::nodes::place_line(self.sp, self.dst, self.ty->payload_off as i64)
    }

    pub open spec fn some_end(self) -> Term {
        Term::Jump(Target { block: self.cont, args: Args::One(self.e) })
    }

    pub open spec fn stands_in(self, q: FuncV) -> bool {
        &&& crate::ir::laid(q, self.p1, self.first_line())
        &&& crate::ir::sealed(q, self.z, self.first_end())
        &&& crate::ir::laid(q, self.np1, self.none_line())
        &&& crate::ir::sealed(q, self.np2, self.none_end())
        &&& crate::ir::laid(q, self.sp, self.some_line())
        &&& crate::ir::sealed(q, self.sp3, self.some_end())
        &&& crate::ir::takes(q, self.none, 0)
        &&& crate::ir::takes(q, self.some, 0)
        &&& crate::ir::takes(q, self.cont, 1)
        &&& crate::ir::extends(self.p1.f, q)
        &&& crate::ir::extends(self.np1.f, q)
        &&& crate::ir::extends(self.sp2.f, q)
        &&& crate::ir::extends(self.sp3.f, q)
    }

    pub open spec fn wf(self) -> bool {
        &&& self.ty is Opt
        &&& self.ty->payload_off <= i64::MAX
        &&& self.cont >= self.p.f.blocks.len()
        &&& self.z.cur == self.p1.cur
        &&& crate::ir::size_at(self.z) == crate::ir::size_at(self.p1) + 3
        &&& self.np.cur == self.none
        &&& crate::ir::size_at(self.np) == 0
        &&& self.np2.cur == self.np1.cur
        &&& crate::ir::size_at(self.np2) == crate::ir::size_at(self.np1) + 1
        &&& self.sp.cur == self.some
        &&& crate::ir::size_at(self.sp) == 0
        &&& self.sp1.cur == self.sp.cur
        &&& crate::ir::size_at(self.sp1) == 2
        &&& self.to.cur == self.cont
        &&& crate::ir::size_at(self.to) == 0
        &&& crate::ir::open_at(self.p1)
        &&& crate::ir::open_at(self.np1)
        &&& crate::ir::open_at(self.sp)
        &&& crate::ir::extends(self.p.f, self.p1.f)
        &&& crate::ir::extends(self.p1.f, self.np.f)
        &&& crate::ir::extends(self.np.f, self.np1.f)
        &&& crate::ir::extends(self.p1.f, self.sp.f)
        &&& crate::ir::extends(self.sp.f, self.sp1.f)
        &&& crate::ir::extends(self.sp1.f, self.sp2.f)
        &&& crate::ir::extends(self.sp2.f, self.sp3.f)
        &&& crate::ir::built(self.p.f, self.dst)
        &&& crate::ir::built(self.p.f, self.x.end)
        &&& crate::ir::built(self.p.f, self.x.sc)
        &&& crate::ir::built(self.p1.f, self.c)
        &&& crate::ir::built(self.sp2.f, self.e)
        &&& crate::cursor::skips_space(self.p, self.p1, self.cur, self.x.end, self.c)
        &&& crate::nodes::writes_disc(
            self.np,
            self.np1,
            self.dst,
            self.ty->disc_off,
            self.ty->disc_size,
            self.ty->none_discr,
        )
        &&& crate::nodes::reads(
            self.tab,
            *self.ty->Opt_inner,
            self.env,
            self.sp1,
            self.sp2,
            crate::ir::slot(self.sp, 1),
            self.c,
            self.x,
            self.e,
        )
        &&& self.ty->some_discr is None ==> self.sp3 == self.sp2
        &&& self.ty->some_discr matches Some(v) ==> crate::nodes::writes_disc(
            self.sp2,
            self.sp3,
            self.dst,
            self.ty->disc_off,
            self.ty->disc_size,
            v,
        )
    }

    /// Past white space, and to one of the two blocks.
    proof fn lemma_first(self, c: Mod, q: FuncV, s: State) -> (t: State)
        requires
            self.wf(),
            self.stands_in(q),
            crate::nodes::ready_read(
                c,
                self.tab,
                q,
                s,
                self.p,
                self.to,
                self.ty,
                self.env,
                self.dst,
                self.cur,
                self.x,
            ),
        ensures
            ({
                let d = crate::cursor::data(s, self.x.end);
                let h = crate::scan::space_end(d, crate::cursor::pos(s, self.cur));
                &&& 0 <= h < d.len()
                &&& crate::ir::goes(c.m, q, s, t)
                &&& crate::ir::keeps(self.p.f, s, t)
                &&& t.world == s.world
                &&& t.at == 0
                &&& t.block == (if d[h] == LOWER_N {
                    self.none
                } else {
                    self.some
                })
                &&& crate::ir::get(t.vals, self.c) == Some(crate::cursor::spot(d, h))
            }),
    {
        let d = crate::cursor::data(s, self.x.end);
        let at = crate::cursor::pos(s, self.cur);
        crate::scan::lemma_space_end(d, at);
        let h = crate::scan::space_end(d, at);
        assert(crate::cursor::ready_at(c.m, q, s, self.p, self.p1, self.cur, self.x.end));
        let spot = crate::cursor::spot(d, h);
        let a = crate::ir::computed(c.m, q, s, self.p.f, self.p1, self.c, spot, s.world);
        let g = Line {
            m: c.m,
            q,
            p0: self.p.f,
            s0: s,
            o: self.p1,
            l: self.first_line(),
        };
        let y = d[h];
        let v = Val::Int(y as int);
        let b0 = g.load(a, 0, v);
        let b1 = g.uextend(b0, 1, v);
        let b2 = g.test_imm(b1, 2, crate::ir::truth(y == LOWER_N));
        let to = Target {
            block: (if y == LOWER_N {
                self.none
            } else {
                self.some
            }),
            args: Args::Zero,
        };
        crate::ir::goto(c.m, q, self.p.f, s, b2, self.z, self.first_end(), to)
    }

    /// `None`.
    proof fn lemma_none(self, c: Mod, q: FuncV, s: State, a: State, h: int)
        requires
            self.wf(),
            self.stands_in(q),
            crate::nodes::ready_read(
                c,
                self.tab,
                q,
                s,
                self.p,
                self.to,
                self.ty,
                self.env,
                self.dst,
                self.cur,
                self.x,
            ),
            ({
                let d = crate::cursor::data(s, self.x.end);
                &&& h == crate::scan::space_end(d, crate::cursor::pos(s, self.cur))
                &&& 0 <= h < d.len()
                &&& d[h] == LOWER_N
                &&& crate::ir::get(a.vals, self.c) == Some(crate::cursor::spot(d, h))
            }),
            crate::ir::goes(c.m, q, s, a),
            crate::ir::keeps(self.p.f, s, a),
            a.world == s.world,
            a.at == 0,
            a.block == self.none,
        ensures
            self.read(c, q, s),
    {
        let d = crate::cursor::data(s, self.x.end);
        let r = crate::nodes::result(c, s, self.ty, self.env, self.dst, self.cur, self.x);
        let ops = crate::nodes::ops_of(r);
        let off = self.ty->disc_off;
        let size = self.ty->disc_size;
        crate::ir::lemma_extends_trans(self.p.f, self.p1.f, self.np.f);
        crate::ir::lemma_extends_trans(self.p.f, self.np.f, self.np1.f);
        crate::ir::lemma_built(self.p1.f, self.np.f, self.c);
        crate::ir::lemma_built(self.np.f, self.np1.f, self.c);
        assert(crate::ir::get(a.vals, self.dst) == crate::ir::get(s.vals, self.dst));
        assert(crate::nodes::ready_disc(c.m, q, a, self.np, self.np1, self.dst, off));
        let op = crate::nodes::disc_write(a, self.dst, off, size, self.ty->none_discr);
        let w = crate::ir::push_op(a.world, op);
        let b = crate::ir::come(c.m, q, a, self.np.f, self.np1, w);
        crate::ir::go_on(c.m, q, self.p.f, s, a, self.np.f, b);
        let g = Line {
            m: c.m,
            q,
            p0: self.p.f,
            s0: s,
            o: self.np1,
            l: self.none_line(),
        };
        let e = g.iadd_imm(b, 0, crate::cursor::spot(d, h + 4));
        let last = Target { block: self.cont, args: Args::One(crate::ir::slot(self.np1, 0)) };
        let t = crate::ir::goto(c.m, q, self.p.f, s, e, self.np2, self.none_end(), last);
        assert(t.world.ops =~= s.world.ops + ops);
        assert(crate::leaf::read_at(
            s,
            t,
            self.p,
            self.to,
            Value::Param(self.cont, 0),
            d,
            ops,
            crate::nodes::end_of(r),
        ));
    }

    pub open spec fn read(self, c: Mod, q: FuncV, s: State) -> bool {
        let r = crate::nodes::result(c, s, self.ty, self.env, self.dst, self.cur, self.x);
        crate::leaf::read_to(
            c.m,
            q,
            s,
            self.p,
            self.to,
            Value::Param(self.cont, 0),
            crate::cursor::data(s, self.x.end),
            crate::nodes::ops_of(r),
            crate::nodes::end_of(r),
        )
    }

    /// A payload.
    #[verifier::spinoff_prover]
    #[verifier::rlimit(60)]
    proof fn lemma_some(self, c: Mod, q: FuncV, s: State, a: State, h: int)
        requires
            self.wf(),
            self.stands_in(q),
            crate::nodes::ready_read(
                c,
                self.tab,
                q,
                s,
                self.p,
                self.to,
                self.ty,
                self.env,
                self.dst,
                self.cur,
                self.x,
            ),
            ({
                let d = crate::cursor::data(s, self.x.end);
                &&& h == crate::scan::space_end(d, crate::cursor::pos(s, self.cur))
                &&& 0 <= h < d.len()
                &&& d[h] != LOWER_N
                &&& crate::ir::get(a.vals, self.c) == Some(crate::cursor::spot(d, h))
            }),
            crate::ir::goes(c.m, q, s, a),
            crate::ir::keeps(self.p.f, s, a),
            a.world == s.world,
            a.at == 0,
            a.block == self.some,
        ensures
            self.read(c, q, s),
    {
        let d = crate::cursor::data(s, self.x.end);
        let r = crate::nodes::result(c, s, self.ty, self.env, self.dst, self.cur, self.x);
        let ops = crate::nodes::ops_of(r);
        let pdst = crate::ir::slot(self.sp, 1);
        let inner = *self.ty->Opt_inner;
        crate::ir::lemma_extends_trans(self.p.f, self.p1.f, self.sp.f);
        crate::ir::lemma_extends_trans(self.p.f, self.sp.f, self.sp1.f);
        crate::ir::lemma_extends_trans(self.p.f, self.sp1.f, self.sp2.f);
        crate::ir::lemma_extends_trans(self.p.f, self.sp2.f, self.sp3.f);
        crate::ir::lemma_built(self.p1.f, self.sp.f, self.c);
        crate::ir::lemma_built(self.p.f, self.sp.f, self.dst);
        assert(crate::ir::get(a.vals, self.dst) == crate::ir::get(s.vals, self.dst));
        let b = crate::nodes::lemma_place(
            c.m,
            q,
            self.p.f,
            s,
            a,
            self.sp,
            self.dst,
            self.ty->payload_off,
            self.some_line(),
        );
        assert(crate::ir::get(b.vals, self.c) == Some(crate::cursor::spot(d, h)));
        assert(crate::ir::get(b.vals, self.x.end) == crate::ir::get(s.vals, self.x.end));
        assert(crate::ir::get(b.vals, self.x.sc) == crate::ir::get(s.vals, self.x.sc));
        let r2 = crate::nodes::result(c, b, inner, self.env, pdst, self.c, self.x);
        assert(crate::nodes::ready_read(
            c,
            self.tab,
            q,
            b,
            self.sp1,
            self.sp2,
            inner,
            self.env,
            pdst,
            self.c,
            self.x,
        ));
        let ops2 = crate::nodes::ops_of(r2);
        let e2 = crate::nodes::end_of(r2);
        let t1 = crate::leaf::read_got(
            c.m,
            q,
            b,
            self.sp1,
            self.sp2,
            self.e,
            d,
            ops2,
            e2,
        );
        crate::ir::go_on(c.m, q, self.p.f, s, b, self.sp1.f, t1);
        let t2 = match self.ty->some_discr {
            None => t1,
            Some(v) => {
                let off = self.ty->disc_off;
                let size = self.ty->disc_size;
                assert(crate::ir::get(t1.vals, self.dst) == crate::ir::get(s.vals, self.dst));
                assert(crate::nodes::ready_disc(
                    c.m,
                    q,
                    t1,
                    self.sp2,
                    self.sp3,
                    self.dst,
                    off,
                ));
                let op = crate::nodes::disc_write(t1, self.dst, off, size, v);
                let w = crate::ir::push_op(t1.world, op);
                let u = crate::ir::come(c.m, q, t1, self.sp2.f, self.sp3, w);
                crate::ir::go_on(c.m, q, self.p.f, s, t1, self.sp2.f, u);
                u
            },
        };
        assert(crate::ir::get(t2.vals, self.e) == Some(crate::cursor::spot(d, e2)));
        let last = Target { block: self.cont, args: Args::One(self.e) };
        let t = crate::ir::goto(c.m, q, self.p.f, s, t2, self.sp3, self.some_end(), last);
        assert(t.world.ops =~= s.world.ops + ops);
        assert(crate::leaf::read_at(
            s,
            t,
            self.p,
            self.to,
            Value::Param(self.cont, 0),
            d,
            ops,
            crate::nodes::end_of(r),
        ));
    }

    proof fn lemma_all(self, c: Mod, q: FuncV, s: State)
        requires
            self.wf(),
            self.stands_in(q),
            crate::nodes::ready_read(
                c,
                self.tab,
                q,
                s,
                self.p,
                self.to,
                self.ty,
                self.env,
                self.dst,
                self.cur,
                self.x,
            ),
        ensures
            self.read(c, q, s),
    {
        let d = crate::cursor::data(s, self.x.end);
        let h = crate::scan::space_end(d, crate::cursor::pos(s, self.cur));
        let a = self.lemma_first(c, q, s);
        if d[h] == LOWER_N {
            self.lemma_none(c, q, s, a, h);
        } else {
            self.lemma_some(c, q, s, a, h);
        }
    }
}

/// Adds the code that reads an `Option`.
#[verifier::spinoff_prover]
#[verifier::rlimit(100)]
fn parse_opt(
    b: &mut Build,
    f: &mut FuncIr,
    ty: &Ty,
    disc_off: usize,
    disc_size: u8,
    none_discr: u128,
    some_discr: Option<u128>,
    payload_off: usize,
    inner: &Ty,
    env: &Vec<(Site, usize, &Ty)>,
    dst: Value,
    cur: Value,
    x: &Pctx,
) -> (r: Value)
    requires
        crate::plan::weight(ty@) <= crate::plan::MAX_WEIGHT,
        disc_off <= i32::MAX,
        old(b).wf(),
        crate::nodes::env_is(old(b).tab@, env@),
        crate::leaf::can_build(*old(f), dst, cur, *x),
        crate::read::disc_ok(disc_size),
        payload_off <= i64::MAX,
        unreadable(inner@, crate::nodes::sites_of(env@)) is None,
        ty@ is Opt,
        ty@->disc_off == disc_off,
        ty@->disc_size == disc_size,
        ty@->none_discr == none_discr,
        ty@->some_discr == some_discr,
        ty@->payload_off == payload_off,
        *ty@->Opt_inner == inner@,
    ensures
        crate::nodes::spent(
            *old(b),
            old(f).point(),
            *final(b),
            final(f).point(),
            crate::binder::STEP * (crate::plan::weight(ty@)),
            (crate::plan::recs(ty@)) as int,
        ),
        old(b).extended(*final(b)),
        crate::binder::advanced(old(f).point(), final(f).point()),
        crate::ir::built(final(f)@, r),
        crate::nodes::reads(
            final(b).tab@,
            ty@,
            crate::nodes::indices(env@),
            old(f).point(),
            final(f).point(),
            dst,
            cur,
            *x,
            r,
        ),
    decreases inner, 1nat,
{
    let ghost p = f.point();
    proof {
        crate::ir::lemma_laid_none(p);
    }
    let c: Value = ws(f, cur, x.end);
    let ghost p1 = f.point();
    proof {
        crate::ir::lemma_laid_none(p1);
    }
    let byte: Value = load_u8(f, c);
    let is_null: Value = f.emit(Inst::TestImm(Cc::Equal, byte, LOWER_N as i64));
    let none: usize = f.create_block(0);
    let some: usize = f.create_block(0);
    let cont: usize = f.create_block(1);
    let ghost z = f.point();
    f.end(
        Term::Brif(
            is_null,
            Target { block: none, args: Args::Zero },
            Target { block: some, args: Args::Zero },
        ),
    );
    f.switch_to(none);
    let ghost np = f.point();
    write_disc(f, dst, disc_off, disc_size, none_discr);
    let ghost np1 = f.point();
    proof {
        crate::ir::lemma_laid_none(np1);
    }
    let past: Value = f.emit(Inst::IaddImm(c, 4));
    let ghost np2 = f.point();
    f.end(Term::Jump(Target { block: cont, args: Args::One(past) }));
    f.switch_to(some);
    let ghost sp = f.point();
    let off: Value = f.emit(Inst::Iconst(payload_off as i64));
    let pdst: Value = f.emit(Inst::Iadd(dst, off));
    let ghost sp1 = f.point();
    assert(crate::ir::extends(sp1.f, sp1.f));
    let e: Value = parse(b, f, inner, env, pdst, c, x);
    let ghost sp2 = f.point();
    assert(crate::ir::extends(sp2.f, sp2.f));
    match some_discr {
        Some(v) => write_disc(f, dst, disc_off, disc_size, v),
        None => {},
    }
    let ghost sp3 = f.point();
    assert(crate::ir::extends(sp3.f, sp3.f));
    f.end(Term::Jump(Target { block: cont, args: Args::One(e) }));
    f.switch_to(cont);
    let ghost to = f.point();
    let r: Value = Value::Param(cont, 0);
    let ghost k = OptCode {
        tab: b.tab@,
        env: crate::nodes::indices(env@),
        ty: ty@,
        dst,
        cur,
        x: *x,
        c,
        e,
        none,
        some,
        cont,
        p,
        p1,
        z,
        np,
        np1,
        np2,
        sp,
        sp1,
        sp2,
        sp3,
        to,
    };
    proof {
        crate::ir::lemma_carried(p, to);
        assert(crate::ir::laid(to.f, p1, k.first_line()));
        assert(crate::ir::laid(to.f, np1, k.none_line()));
        assert(crate::ir::laid(to.f, sp, k.some_line()));
        assert(k.wf());
        assert(k.stands_in(to.f));
        assert forall|c2: Mod, q: FuncV, s: State| #[trigger]
            crate::nodes::ready_read(
                c2,
                k.tab,
                q,
                s,
                p,
                to,
                ty@,
                k.env,
                dst,
                cur,
                *x,
            ) implies k.read(c2, q, s) by {
            crate::ir::lemma_has_all(to.f, q);
            assert(k.stands_in(q));
            k.lemma_all(c2, q, s);
        }
    }
    r
}

// ---------------------------------------------------------------------------
// Box.
// ---------------------------------------------------------------------------

/// The code of a `Box` before its contents.
pub open spec fn box_line(p: Point, size: i64, align: i64) -> Seq<Inst> {
    Seq::empty()
        .push(Inst::Iconst(size))
        .push(Inst::Iconst(align))
        .push(Inst::Call(Shim::Alloc, Args::Two(crate::ir::slot(p, 0), crate::ir::slot(p, 1))))
}

#[verifier::spinoff_prover]
#[verifier::rlimit(60)]
proof fn lemma_box(
    c: Mod,
    tab: Seq<Entry>,
    env: Seq<usize>,
    q: FuncV,
    s: State,
    p: Point,
    p1: Point,
    p2: Point,
    to: Point,
    inner: TyV,
    size: u64,
    align: u64,
    dst: Value,
    cur: Value,
    x: Pctx,
    e: Value,
    line: Seq<Inst>,
)
    requires
        size <= i64::MAX,
        align <= i64::MAX,
        line == box_line(p, size as i64, align as i64),
        crate::ir::laid(q, p, line),
        crate::ir::open_at(p),
        crate::ir::extends(p.f, p1.f),
        crate::ir::extends(p1.f, p2.f),
        crate::ir::extends(p2.f, q),
        p1.cur == p.cur,
        crate::ir::size_at(p1) == crate::ir::size_at(p) + 3,
        crate::ir::built(p.f, dst),
        crate::ir::built(p.f, cur),
        crate::ir::built(p.f, x.end),
        crate::ir::built(p.f, x.sc),
        crate::ir::built(p1.f, crate::ir::slot(p, 2)),
        crate::ir::built(p2.f, e),
        crate::nodes::reads(tab, inner, env, p1, p2, crate::ir::slot(p, 2), cur, x, e),
        crate::binder::stores(p2, to, dst, 0, crate::ir::slot(p, 2)),
        crate::nodes::ready_read(
            c,
            tab,
            q,
            s,
            p,
            to,
            TyV::Boxed { inner: Box::new(inner), size, align },
            env,
            dst,
            cur,
            x,
        ),
    ensures
        ({
            let r = crate::nodes::result(
                c,
                s,
                TyV::Boxed { inner: Box::new(inner), size, align },
                env,
                dst,
                cur,
                x,
            );
            crate::leaf::read_to(
                c.m,
                q,
                s,
                p,
                to,
                e,
                crate::cursor::data(s, x.end),
                crate::nodes::ops_of(r),
                crate::nodes::end_of(r),
            )
        }),
{
    let ty = TyV::Boxed { inner: Box::new(inner), size, align };
    let d = crate::cursor::data(s, x.end);
    let r = crate::nodes::result(c, s, ty, env, dst, cur, x);
    let ops = crate::nodes::ops_of(r);
    let buf = crate::ir::slot(p, 2);
    let g = Line { m: c.m, q, p0: p.f, s0: s, o: p, l: line };
    g.begin(s);
    let b0 = g.iconst(s, 0, Val::Int(size as int));
    let b1 = g.iconst(b0, 1, Val::Int(align as int));
    assert(align != 0);
    let pre = crate::interp::home_ops(size as int, align);
    let (v, w) = crate::ir::alloc_call(size as int, align as int, s.world)->0;
    assert(w.ops =~= s.world.ops + pre);
    let b2 = g.call_two(b1, 2, v, w);
    let r2 = crate::nodes::result(c, b2, inner, env, buf, cur, x);
    assert(crate::ir::get(b2.vals, cur) == crate::ir::get(s.vals, cur));
    assert(crate::ir::get(b2.vals, x.end) == crate::ir::get(s.vals, x.end));
    assert(crate::ir::get(b2.vals, x.sc) == crate::ir::get(s.vals, x.sc));
    assert(crate::nodes::ready_read(c, tab, q, b2, p1, p2, inner, env, buf, cur, x));
    let t1 = crate::leaf::read_got(
        c.m,
        q,
        b2,
        p1,
        p2,
        e,
        d,
        crate::nodes::ops_of(r2),
        crate::nodes::end_of(r2),
    );
    crate::ir::go_on(c.m, q, p.f, s, b2, p1.f, t1);
    crate::ir::lemma_extends_trans(p.f, p1.f, p2.f);
    let block = crate::leaf::block_of(s, dst);
    let off = crate::leaf::off_of(s, dst) as u64;
    assert(crate::ir::get(t1.vals, dst) == crate::ir::get(s.vals, dst));
    assert(crate::ir::get(t1.vals, buf) == crate::ir::get(b2.vals, buf));
    let t = crate::binder::then_store(c.m, q, p.f, s, p2, to, dst, 0, buf, t1, block, off);
    assert(crate::ir::get(t.vals, e) == crate::ir::get(t1.vals, e));
    assert(t.world.ops =~= s.world.ops + ops);
    assert(crate::leaf::read_at(s, t, p, to, e, d, ops, crate::nodes::end_of(r)));
}

/// Adds the code that reads a `Box`.
#[verifier::spinoff_prover]
#[verifier::rlimit(60)]
fn parse_box(
    b: &mut Build,
    f: &mut FuncIr,
    inner: &Ty,
    size: u64,
    align: u64,
    env: &Vec<(Site, usize, &Ty)>,
    dst: Value,
    cur: Value,
    x: &Pctx,
) -> (r: Value)
    requires
        1 + crate::plan::weight(inner@) <= crate::plan::MAX_WEIGHT,
        old(b).wf(),
        crate::nodes::env_is(old(b).tab@, env@),
        crate::leaf::can_build(*old(f), dst, cur, *x),
        size <= i64::MAX,
        align <= i64::MAX,
        unreadable(inner@, crate::nodes::sites_of(env@)) is None,
    ensures
        crate::nodes::spent(
            *old(b),
            old(f).point(),
            *final(b),
            final(f).point(),
            crate::binder::STEP * (1 + crate::plan::weight(inner@)),
            (crate::plan::recs(inner@)) as int,
        ),
        old(b).extended(*final(b)),
        crate::binder::advanced(old(f).point(), final(f).point()),
        crate::ir::built(final(f)@, r),
        crate::nodes::reads(
            final(b).tab@,
            (TyV::Boxed { inner: Box::new(inner@), size, align }),
            crate::nodes::indices(env@),
            old(f).point(),
            final(f).point(),
            dst,
            cur,
            *x,
            r,
        ),
    decreases inner, 1nat,
{
    let ghost p = f.point();
    proof {
        crate::ir::lemma_laid_none(p);
    }
    let bytes: Value = f.emit(Inst::Iconst(size as i64));
    let least: Value = f.emit(Inst::Iconst(align as i64));
    let buf: Value = f.emit(Inst::Call(Shim::Alloc, Args::Two(bytes, least)));
    let ghost line = box_line(p, size as i64, align as i64);
    let ghost p1 = f.point();
    assert(crate::ir::laid(f@, p, line));
    assert(crate::ir::extends(p1.f, p1.f));
    let e: Value = parse(b, f, inner, env, buf, cur, x);
    let ghost p2 = f.point();
    assert(crate::ir::extends(p2.f, p2.f));
    store_at(f, dst, 0, buf);
    let ghost to = f.point();
    proof {
        crate::ir::lemma_carried(p, to);
        let ty = TyV::Boxed { inner: Box::new(inner@), size, align };
        let tab = b.tab@;
        let ix = crate::nodes::indices(env@);
        assert forall|c: Mod, q: FuncV, s: State| #[trigger]
            crate::nodes::ready_read(
                c,
                tab,
                q,
                s,
                p,
                to,
                ty,
                ix,
                dst,
                cur,
                *x,
            ) implies crate::leaf::read_to(
            c.m,
            q,
            s,
            p,
            to,
            e,
            crate::cursor::data(s, x.end),
            crate::nodes::ops_of(crate::nodes::result(c, s, ty, ix, dst, cur, *x)),
            crate::nodes::end_of(crate::nodes::result(c, s, ty, ix, dst, cur, *x)),
        ) by {
            crate::ir::lemma_has_all(to.f, q);
            lemma_box(
                c,
                tab,
                ix,
                q,
                s,
                p,
                p1,
                p2,
                to,
                inner@,
                size,
                align,
                dst,
                cur,
                *x,
                e,
                line,
            );
        }
    }
    e
}

// ---------------------------------------------------------------------------
// Types that contain themselves.
// ---------------------------------------------------------------------------

/// A call of a function reads what it is recorded for.
proof fn lemma_call(
    c: Mod,
    tab: Seq<Entry>,
    env: Seq<usize>,
    q: FuncV,
    s: State,
    p: Point,
    to: Point,
    k: usize,
    ty: TyV,
    dst: Value,
    cur: Value,
    x: Pctx,
    line: Seq<Inst>,
)
    requires
        k < tab.len(),
        line == Seq::empty().push(
            Inst::CallFn { func: k, dst, cur, end: x.end, sc: x.sc },
        ),
        crate::ir::laid(q, p, line),
        crate::ir::open_at(p),
        to.cur == p.cur,
        crate::ir::size_at(to) == crate::ir::size_at(p) + 1,
        crate::nodes::ready_read(c, tab, q, s, p, to, ty, env, dst, cur, x),
        c.n > 0,
        crate::nodes::result(c, s, ty, env, dst, cur, x) == crate::read::read(
            (c.n - 1) as nat,
            c.tab[k as int].body,
            crate::nodes::scope(c.tab, c.tab[k as int].env),
            crate::cursor::data(s, x.end),
            crate::cursor::pos(s, cur),
            crate::leaf::block_of(s, dst),
            crate::leaf::off_of(s, dst) as u64,
            s.world.ops.len(),
        ),
    ensures
        crate::leaf::read_to(
            c.m,
            q,
            s,
            p,
            to,
            crate::ir::slot(p, 0),
            crate::cursor::data(s, x.end),
            crate::nodes::ops_of(crate::nodes::result(c, s, ty, env, dst, cur, x)),
            crate::nodes::end_of(crate::nodes::result(c, s, ty, env, dst, cur, x)),
        ),
{
    let d = crate::cursor::data(s, x.end);
    let at = crate::cursor::pos(s, cur);
    let block = crate::leaf::block_of(s, dst);
    let off = crate::leaf::off_of(s, dst) as u64;
    let r = crate::nodes::result(c, s, ty, env, dst, cur, x);
    let ops = crate::nodes::ops_of(r);
    let e = crate::nodes::end_of(r);
    let f = c.m[k as int];
    let j = (c.n - 1) as nat;
    let args = crate::nodes::args_of(d, at, block, off);
    assert(crate::nodes::right_fn(c.m, c.tab, k as int, j, f));
    assert(crate::nodes::right_one(c.m, c.tab, k as int, j, f, d, at, block, off, s.world));
    let n = choose|n: nat|
        crate::nodes::came_to(
            #[trigger] crate::ir::run(c.m, f, crate::ir::entry(args, s.world), n),
            s.world,
            d,
            ops,
            e,
        );
    let (v, w) = crate::ir::run(c.m, f, crate::ir::entry(args, s.world), n)->0;
    assert(c.m[k as int].blocks.len() > 0);
    let g = Line { m: c.m, q, p0: p.f, s0: s, o: p, l: line };
    g.begin(s);
    let t = g.call_fn(s, 0, args, n, v, w);
    assert(crate::leaf::read_at(s, t, p, to, crate::ir::slot(p, 0), d, ops, e));
}

/// Adds a call of the function for a type that contains itself.
fn parse_call(
    f: &mut FuncIr,
    k: usize,
    Ghost(tab): Ghost<Seq<Entry>>,
    Ghost(ty): Ghost<TyV>,
    Ghost(env): Ghost<Seq<usize>>,
    dst: Value,
    cur: Value,
    x: &Pctx,
) -> (r: Value)
    requires
        k < tab.len(),
        crate::leaf::can_build(*old(f), dst, cur, *x),
        calls_for(tab, ty, env, k as int),
    ensures
        crate::tidy::tidy(old(f).point()) ==> crate::tidy::total(final(f)@) <= crate::tidy::total(old(f)@) + 1,
        forall|c: int| #[trigger]
            crate::tidy::calls_below(old(f)@, c) && k < c ==> crate::tidy::calls_below(final(f)@, c),
        crate::binder::advanced(old(f).point(), final(f).point()),
        crate::ir::built(final(f)@, r),
        crate::nodes::reads(
            tab,
            ty,
            env,
            old(f).point(),
            final(f).point(),
            dst,
            cur,
            *x,
            r,
        ),
{
    let ghost p = f.point();
    proof {
        crate::ir::lemma_laid_none(p);
    }
    let r: Value = f.emit(Inst::CallFn { func: k, dst, cur, end: x.end, sc: x.sc });
    let ghost to = f.point();
    let ghost line = Seq::<Inst>::empty().push(
        Inst::CallFn { func: k, dst, cur, end: x.end, sc: x.sc },
    );
    proof {
        crate::ir::lemma_carried(p, to);
        assert(crate::ir::laid(to.f, p, line));
        assert forall|c: Mod, q: FuncV, s: State| #[trigger]
            crate::nodes::ready_read(
                c,
                tab,
                q,
                s,
                p,
                to,
                ty,
                env,
                dst,
                cur,
                *x,
            ) implies crate::leaf::read_to(
            c.m,
            q,
            s,
            p,
            to,
            r,
            crate::cursor::data(s, x.end),
            crate::nodes::ops_of(crate::nodes::result(c, s, ty, env, dst, cur, *x)),
            crate::nodes::end_of(crate::nodes::result(c, s, ty, env, dst, cur, *x)),
        ) by {
            crate::ir::lemma_has_all(to.f, q);
            assert(same_read(
                c,
                ty,
                env,
                k as int,
                crate::cursor::data(s, x.end),
                crate::cursor::pos(s, cur),
                crate::leaf::block_of(s, dst),
                crate::leaf::off_of(s, dst) as u64,
                s.world.ops.len(),
            ));
            lemma_call(c, tab, env, q, s, p, to, k, ty, dst, cur, *x, line);
        }
    }
    r
}

/// Whether reading a type is what a function is recorded for, one level of
/// nesting down.
pub open spec fn same_read(
    c: Mod,
    ty: TyV,
    env: Seq<usize>,
    k: int,
    d: Seq<u8>,
    at: int,
    block: Block,
    off: u64,
    base: nat,
) -> bool {
    let r = crate::read::read(
        c.n,
        ty,
        crate::nodes::scope(c.tab, env),
        d,
        at,
        block,
        off,
        base,
    );
    r is Some ==> c.n > 0 && r == crate::read::read(
        (c.n - 1) as nat,
        c.tab[k].body,
        crate::nodes::scope(c.tab, c.tab[k].env),
        d,
        at,
        block,
        off,
        base,
    )
}

pub open spec fn calls_for(tab: Seq<Entry>, ty: TyV, env: Seq<usize>, k: int) -> bool {
    forall|c: Mod, d: Seq<u8>, at: int, block: Block, off: u64, base: nat|
        crate::nodes::prefix(tab, c.tab) && crate::nodes::env_ok(c.tab, env) ==> #[trigger]
        same_read(c, ty, env, k, d, at, block, off, base)
}

/// What a function for a type promises: once all the functions that it calls
/// read what they are recorded for, so does it.
pub open spec fn reads_as(tab: Seq<Entry>, body: TyV, env: Seq<usize>, f: FuncV) -> bool {
    &&& f.blocks.len() > 0
    &&& f.blocks[0].params == 4
    &&& forall|c: Mod, d: Seq<u8>, at: int, block: Block, off: u64, w: World|
        crate::nodes::callable(c, tab) && crate::nodes::env_ok(c.tab, env) ==> #[trigger]
        reads_one(c, body, env, f, d, at, block, off, w)
}

pub open spec fn reads_one(
    c: Mod,
    body: TyV,
    env: Seq<usize>,
    f: FuncV,
    d: Seq<u8>,
    at: int,
    block: Block,
    off: u64,
    w: World,
) -> bool {
    match crate::read::read(
        c.n,
        body,
        crate::nodes::scope(c.tab, env),
        d,
        at,
        block,
        off,
        w.ops.len(),
    ) {
        None => true,
        Some((ops, e)) => 0 <= at && d.len() <= i64::MAX && w.ops.len() + ops.len() <= usize::MAX
            ==> crate::nodes::returns_at(
            c.m,
            f,
            crate::nodes::args_of(d, at, block, off),
            w,
            d,
            ops,
            e,
        ),
    }
}

/// The function for a type that contains itself.
fn parse_fn(b: &mut Build, body: &Ty, env: &Vec<(Site, usize, &Ty)>) -> (r: FuncIr)
    requires
        crate::plan::weight(body@) <= crate::plan::MAX_WEIGHT,
        old(b).wf(),
        crate::nodes::env_is(old(b).tab@, env@),
        unreadable(body@, crate::nodes::sites_of(env@)) is None,
    ensures
        final(b).funcs@.len() == old(b).funcs@.len() + crate::plan::recs(body@),
        crate::nodes::complete(r, final(b).funcs@.len() as int),
        old(b).extended(*final(b)),
        reads_as(final(b).tab@, body@, crate::nodes::indices(env@), r@),
    decreases body, 1nat,
{
    let mut f: FuncIr = FuncIr::new(4);
    let dst: Value = Value::Param(0, 0);
    let cur: Value = Value::Param(0, 1);
    let x: Pctx = Pctx { end: Value::Param(0, 2), sc: Value::Param(0, 3) };
    let ghost p = f.point();
    proof {
        crate::tidy::lemma_calls_more(f@, 0, b.funcs@.len() as int);
    }
    let e: Value = parse(b, &mut f, body, env, dst, cur, &x);
    let ghost to = f.point();
    f.end(Term::Return(Args::One(e)));
    proof {
        let q = f@;
        let ix = crate::nodes::indices(env@);
        let tab = b.tab@;
        assert forall|c: Mod, d: Seq<u8>, at: int, block: Block, off: u64, w: World|
            crate::nodes::callable(c, tab) && crate::nodes::env_ok(c.tab, ix) implies #[trigger]
        reads_one(c, body@, ix, q, d, at, block, off, w) by {
            let r = crate::read::read(
                c.n,
                body@,
                crate::nodes::scope(c.tab, ix),
                d,
                at,
                block,
                off,
                w.ops.len(),
            );
            if r is Some && 0 <= at && d.len() <= i64::MAX && w.ops.len()
                + crate::nodes::ops_of(r).len() <= usize::MAX {
                let args = crate::nodes::args_of(d, at, block, off);
                let s = crate::ir::entry(args, w);
                let ops = crate::nodes::ops_of(r);
                let end = crate::nodes::end_of(r);
                assert(crate::ir::get(s.vals, dst) == Some(args[0]));
                assert(crate::ir::get(s.vals, cur) == Some(args[1]));
                assert(crate::ir::get(s.vals, x.end) == Some(args[2]));
                assert(crate::ir::get(s.vals, x.sc) == Some(args[3]));
                assert(crate::nodes::result(c, s, body@, ix, dst, cur, x) == r);
                assert(crate::nodes::ready_read(
                    c,
                    tab,
                    q,
                    s,
                    p,
                    to,
                    body@,
                    ix,
                    dst,
                    cur,
                    x,
                ));
                let t = crate::leaf::read_got(c.m, q, s, p, to, e, d, ops, end);
                let got = (crate::cursor::spot(d, end), t.world);
                let n = crate::binder::lemma_gives_back(c.m, q, s, t, got);
                assert(crate::nodes::came_to(
                    crate::ir::run(c.m, q, crate::ir::entry(args, w), n),
                    w,
                    d,
                    ops,
                    end,
                ));
            }
        }
        assert(crate::ir::block_extends(p.f.blocks[0], to.f.blocks[0]));
        assert(crate::ir::block_extends(to.f.blocks[0], q.blocks[0]));
    }
    f
}

/// Adds the code that reads a type that contains itself: a call of a function of
/// its own, which is made here.
#[verifier::spinoff_prover]
#[verifier::rlimit(60)]
fn parse_rec(
    b: &mut Build,
    f: &mut FuncIr,
    site: Site,
    body: &Ty,
    env: &Vec<(Site, usize, &Ty)>,
    dst: Value,
    cur: Value,
    x: &Pctx,
) -> (r: Value)
    requires
        1 + crate::plan::weight(body@) <= crate::plan::MAX_WEIGHT,
        old(b).wf(),
        crate::nodes::env_is(old(b).tab@, env@),
        crate::leaf::can_build(*old(f), dst, cur, *x),
        unreadable(body@, crate::nodes::sites_of(env@).push(site)) is None,
    ensures
        crate::nodes::spent(
            *old(b),
            old(f).point(),
            *final(b),
            final(f).point(),
            crate::binder::STEP * (1 + crate::plan::weight(body@)),
            (1 + crate::plan::recs(body@)) as int,
        ),
        old(b).extended(*final(b)),
        crate::binder::advanced(old(f).point(), final(f).point()),
        crate::ir::built(final(f)@, r),
        crate::nodes::reads(
            final(b).tab@,
            (TyV::Rec { site, body: Box::new(body@) }),
            crate::nodes::indices(env@),
            old(f).point(),
            final(f).point(),
            dst,
            cur,
            *x,
            r,
        ),
    decreases body, 2nat,
{
    let ghost b0 = *b;
    let k: usize = b.funcs.len();
    let ghost ix = crate::nodes::indices(env@);
    let ghost own = Entry { site, body: body@, env: ix.push(k) };
    b.funcs.push(FuncIr::new(4));
    let len: usize = b.funcs.len();
    proof {
        b.tab@ = b.tab@.push(own);
    }
    let ghost b1 = *b;
    let more: Vec<(Site, usize, &Ty)> = inside(env, site, k, body);
    proof {
        lemma_inside(b0.tab@, b1.tab@, env@, more@, site, k, body, own);
    }
    let g: FuncIr = parse_fn(b, body, &more);
    let ghost b2 = *b;
    b.funcs.set(k, g);
    let ghost b3 = *b;
    proof {
        let tab = b3.tab@;
        let ix2 = crate::nodes::indices(more@);
        crate::nodes::lemma_prefix_trans(b0.tab@, b1.tab@, tab);
        assert(tab[k as int] == own) by {
            assert(b1.tab@[k as int] == own);
        }
        assert forall|i: int| 0 <= i < b0.tab@.len() implies #[trigger] b3.funcs@[i]
            == b0.funcs@[i] by {
            assert(b2.funcs@[i] == b1.funcs@[i]);
        }
        assert(crate::nodes::done_ok(tab, k as int, g@)) by {
            assert forall|c: Mod| #[trigger]
                crate::nodes::callable(c, tab) implies crate::nodes::right_fn(
                c.m,
                c.tab,
                k as int,
                c.n,
                g@,
            ) by {
                assert(c.tab[k as int] == tab[k as int]);
                crate::nodes::lemma_env_more(b1.tab@, tab, ix2);
                crate::nodes::lemma_env_more(tab, c.tab, ix2);
                assert forall|d: Seq<u8>, at: int, block: Block, off: u64, w: World| #[trigger]
                    crate::nodes::right_one(
                        c.m,
                        c.tab,
                        k as int,
                        c.n,
                        g@,
                        d,
                        at,
                        block,
                        off,
                        w,
                    ) by {
                    assert(reads_one(c, body@, ix2, g@, d, at, block, off, w));
                }
            }
        }
        assert forall|i: int| b0.tab@.len() <= i < tab.len() implies #[trigger] crate::nodes::done_ok(
            tab,
            i,
            b3.funcs@[i]@,
        ) by {
            if i > k {
                assert(crate::nodes::done_ok(b2.tab@, i, b2.funcs@[i]@));
                assert(b3.funcs@[i] == b2.funcs@[i]);
            }
        }
        let ty = TyV::Rec { site, body: Box::new(body@) };
        assert forall|c: Mod, d: Seq<u8>, at: int, block: Block, off: u64, base: nat|
            crate::nodes::prefix(tab, c.tab) && crate::nodes::env_ok(
                c.tab,
                ix,
            ) implies #[trigger] same_read(c, ty, ix, k as int, d, at, block, off, base) by {
            assert(c.tab[k as int] == tab[k as int]);
            assert(crate::nodes::scope(c.tab, ix.push(k)) =~= crate::nodes::scope(c.tab, ix).push(
                (site, body@),
            ));
        }
    }
    proof {
        if crate::tidy::calls_below(f@, b0.funcs@.len() as int) {
            crate::tidy::lemma_calls_more(f@, b0.funcs@.len() as int, b.funcs@.len() as int);
        }
    }
    parse_call(
        f,
        k,
        Ghost(b.tab@),
        Ghost((TyV::Rec { site, body: Box::new(body@) })),
        Ghost(crate::nodes::indices(env@)),
        dst,
        cur,
        x,
    )
}

/// The types around a body are recorded, where those around its type are.
proof fn lemma_inside(
    tab0: Seq<Entry>,
    tab: Seq<Entry>,
    env: Seq<(Site, usize, &Ty)>,
    more: Seq<(Site, usize, &Ty)>,
    site: Site,
    k: usize,
    body: &Ty,
    own: Entry,
)
    requires
        crate::nodes::env_is(tab0, env),
        tab == tab0.push(own),
        k == tab0.len(),
        own == (Entry { site, body: body@, env: crate::nodes::indices(env).push(k) }),
        more == env.push((site, k, body)),
    ensures
        crate::nodes::env_is(tab, more),
        crate::nodes::indices(more) == crate::nodes::indices(env).push(k),
        crate::nodes::sites_of(more) == crate::nodes::sites_of(env).push(site),
{
    let ix = crate::nodes::indices(env);
    let ix2 = crate::nodes::indices(more);
    assert(ix2 =~= ix.push(k));
    assert(crate::nodes::sites_of(more) =~= crate::nodes::sites_of(env).push(site));
    crate::nodes::lemma_env_is_more(tab0, tab, env);
    assert forall|i: int| 0 <= i < ix2.len() implies #[trigger] ix2[i] < tab.len()
        && tab[ix2[i] as int].env == ix2.take(i + 1) by {
        if i < ix.len() {
            assert(ix[i] < tab.len());
            assert(ix2.take(i + 1) =~= ix.take(i + 1));
        } else {
            assert(ix2.take(i + 1) =~= ix2);
        }
    }
    assert forall|i: int|
        #![trigger more[i]]
        0 <= i < more.len() implies more[i].1 < tab.len() && tab[more[i].1 as int].site
        == more[i].0 && tab[more[i].1 as int].body == more[i].2@ by {
        if i < env.len() {
            assert(more[i] == env[i]);
        }
    }
}

/// A back-edge is read by the function for the type that it leads to.
proof fn lemma_back(
    tab: Seq<Entry>,
    env: Seq<(Site, usize, &Ty)>,
    site: Site,
    i: nat,
)
    requires
        crate::nodes::env_is(tab, env),
        crate::interp::find_site(crate::members::types_of(env), env.len(), site) == Some(i),
        i < env.len(),
    ensures
        calls_for(tab, TyV::Ref(site), crate::nodes::indices(env), env[i as int].1 as int),
{
    let ix = crate::nodes::indices(env);
    let k = env[i as int].1;
    assert forall|c: Mod, d: Seq<u8>, at: int, block: Block, off: u64, base: nat|
        crate::nodes::prefix(tab, c.tab) && crate::nodes::env_ok(
            c.tab,
            ix,
        ) implies #[trigger] same_read(
        c,
        TyV::Ref(site),
        ix,
        k as int,
        d,
        at,
        block,
        off,
        base,
    ) by {
        crate::nodes::lemma_env_is_more(tab, c.tab, env);
        let sc = crate::nodes::scope(c.tab, ix);
        assert(sc =~= crate::members::types_of(env)) by {
            assert forall|j: int| 0 <= j < env.len() implies sc[j] == crate::members::types_of(
                env,
            )[j] by {
                assert(env[j].1 < c.tab.len());
            }
        }
        assert(ix[i as int] < c.tab.len());
        assert(c.tab[k as int].env == ix.take((i + 1) as int));
        assert(crate::nodes::scope(c.tab, ix.take((i + 1) as int)) =~= sc.take((i + 1) as int));
    }
}

/// Adds the code that reads a value of a type at a cursor and lays it out at a
/// place: the cursor after it.
pub fn parse(
    b: &mut Build,
    f: &mut FuncIr,
    ty: &Ty,
    env: &Vec<(Site, usize, &Ty)>,
    dst: Value,
    cur: Value,
    x: &Pctx,
) -> (r: Value)
    requires
        crate::plan::weight(ty@) <= crate::plan::MAX_WEIGHT,
        old(b).wf(),
        crate::nodes::env_is(old(b).tab@, env@),
        crate::leaf::can_build(*old(f), dst, cur, *x),
        unreadable(ty@, crate::nodes::sites_of(env@)) is None,
    ensures
        crate::nodes::spent(
            *old(b),
            old(f).point(),
            *final(b),
            final(f).point(),
            crate::binder::STEP * (crate::plan::weight(ty@)),
            (crate::plan::recs(ty@)) as int,
        ),
        old(b).extended(*final(b)),
        crate::binder::advanced(old(f).point(), final(f).point()),
        crate::ir::built(final(f)@, r),
        crate::nodes::reads(
            final(b).tab@,
            ty@,
            crate::nodes::indices(env@),
            old(f).point(),
            final(f).point(),
            dst,
            cur,
            *x,
            r,
        ),
    decreases ty, 0nat,
{
    let ghost p = f.point();
    let ghost tab = b.tab@;
    let ghost ix = crate::nodes::indices(env@);
    match ty {
        Ty::Bool => {
            let r: Value = parse_bool(f, dst, cur, x);
            proof {
                crate::nodes::lemma_leaf(tab, ty@, ix, p, f.point(), dst, cur, *x, r);
            }
            r
        },
        Ty::U(n) => {
            let r: Value = parse_int(f, false, *n, dst, cur, x);
            proof {
                crate::nodes::lemma_leaf(tab, ty@, ix, p, f.point(), dst, cur, *x, r);
            }
            r
        },
        Ty::I(n) => {
            let r: Value = parse_int(f, true, *n, dst, cur, x);
            proof {
                crate::nodes::lemma_leaf(tab, ty@, ix, p, f.point(), dst, cur, *x, r);
            }
            r
        },
        Ty::F32 => {
            let r: Value = parse_float(f, 4, dst, cur, x);
            proof {
                crate::nodes::lemma_leaf(tab, ty@, ix, p, f.point(), dst, cur, *x, r);
            }
            r
        },
        Ty::F64 => {
            let r: Value = parse_float(f, 8, dst, cur, x);
            proof {
                crate::nodes::lemma_leaf(tab, ty@, ix, p, f.point(), dst, cur, *x, r);
            }
            r
        },
        Ty::Char => {
            let r: Value = parse_char(f, dst, cur, x);
            proof {
                crate::nodes::lemma_leaf(tab, ty@, ix, p, f.point(), dst, cur, *x, r);
            }
            r
        },
        Ty::Str(seq) => {
            let r: Value = parse_str(f, seq, dst, cur, x);
            proof {
                crate::nodes::lemma_leaf(tab, ty@, ix, p, f.point(), dst, cur, *x, r);
            }
            r
        },
        Ty::StrRef { ptr_off, len_off } => {
            let r: Value = parse_str_ref(f, *ptr_off, *len_off, dst, cur, x);
            proof {
                crate::nodes::lemma_leaf(tab, ty@, ix, p, f.point(), dst, cur, *x, r);
            }
            r
        },
        Ty::Unit => {
            let r: Value = parse_unit(f, dst, cur, x);
            proof {
                crate::nodes::lemma_leaf(tab, ty@, ix, p, f.point(), dst, cur, *x, r);
            }
            r
        },
        Ty::Struct { name, fields } => parse_struct(b, f, Ghost(name@), fields, env, dst, cur, x),
        Ty::Tuple { fields } => parse_tuple(b, f, fields, env, dst, cur, x),
        Ty::Vec { elem, elem_size, elem_align, seq } => parse_vec(
            b,
            f,
            elem,
            *elem_size,
            *elem_align,
            seq,
            env,
            dst,
            cur,
            x,
        ),
        Ty::Opt { disc_off, disc_size, none_discr, some_discr, payload_off, size, inner } => parse_opt(
            b,
            f,
            ty,
            *disc_off,
            *disc_size,
            *none_discr,
            *some_discr,
            *payload_off,
            inner,
            env,
            dst,
            cur,
            x,
        ),
        Ty::Boxed { inner, size, align } => parse_box(b, f, inner, *size, *align, env, dst, cur, x),
        Ty::BTreeMap { key, key_size, val, val_size, new_at, insert } => match key_words(key) {
            Some(seq) => {
                proof {
                    assert(crate::plan::weight(key@) == 1);
                }
                parse_map(
                    b,
                    f,
                    &seq,
                    *key_size,
                    val,
                    *val_size,
                    *new_at,
                    *insert,
                    env,
                    dst,
                    cur,
                    x,
                )
            },
            None => cur,
        },
        Ty::Rec { site, body } => parse_rec(b, f, *site, body, env, dst, cur, x),
        Ty::Ref(site) => match crate::members::lookup(env, *site) {
            Some(i) => {
                proof {
                    lemma_back(tab, env@, *site, i as nat);
                }
                parse_call(f, env[i].1, Ghost(tab), Ghost(ty@), Ghost(ix), dst, cur, x)
            },
            None => {
                proof {
                    crate::members::lemma_no_site(env@, *site);
                }
                cur
            },
        },
        _ => cur,
    }
}

// ---------------------------------------------------------------------------
// The whole.
// ---------------------------------------------------------------------------

/// A compiled parser: the function that is called, and those that it calls.
pub struct Code {
    pub main: FuncIr,
    pub funcs: Vec<FuncIr>,
}

/// What a list of functions says.
pub open spec fn funcs_view(v: Seq<FuncIr>) -> Seq<FuncV> {
    Seq::new(v.len(), |k: int| v[k]@)
}

/// Whether a function, called with a place, the start of an input and its length,
/// reads the input as a type: it does the writes that reading comes to.
pub open spec fn parses(ty: TyV, m: Seq<FuncV>, f: FuncV) -> bool {
    forall|n: nat, d: Seq<u8>, block: Block, off: u64, w: World| #[trigger]
        parses_one(ty, m, f, n, d, block, off, w)
}

pub open spec fn parses_one(
    ty: TyV,
    m: Seq<FuncV>,
    f: FuncV,
    n: nat,
    d: Seq<u8>,
    block: Block,
    off: u64,
    w: World,
) -> bool {
    match crate::read::read(n, ty, Seq::empty(), d, 0, block, off, w.ops.len()) {
        None => true,
        Some((ops, e)) => d.len() <= i64::MAX && w.ops.len() + ops.len() <= usize::MAX ==> writes(
            m,
            f,
            main_args(d, block, off),
            w,
            ops,
        ),
    }
}

/// The arguments of a parser: the place, the input, and its length.
pub open spec fn main_args(d: Seq<u8>, block: Block, off: u64) -> Seq<Val> {
    seq![
        Val::Ptr(Region::Out(block), off as int),
        crate::cursor::spot(d, 0),
        Val::Int(d.len() as int),
    ]
}

/// Whether a function, called with some arguments, returns, and has done some
/// writes.
pub open spec fn writes(m: Seq<FuncV>, f: FuncV, args: Seq<Val>, w: World, ops: Seq<OpV>) -> bool {
    exists|n: nat|
        has_written(#[trigger] crate::ir::run(m, f, crate::ir::entry(args, w), n), w, ops)
}

pub open spec fn has_written(r: Option<(Val, World)>, w: World, ops: Seq<OpV>) -> bool {
    match r {
        Some((_, after)) => after.ops == w.ops + ops,
        None => false,
    }
}

/// Functions that read what they are recorded for, once those that they call do,
/// read it: however deep calls are nested, those nested in them are nested less
/// deep.
proof fn lemma_calls_ok(m: Seq<FuncV>, tab: Seq<Entry>, n: nat)
    requires
        tab.len() == m.len(),
        forall|k: int| 0 <= k < tab.len() ==> #[trigger] crate::nodes::done_ok(tab, k, m[k]),
    ensures
        crate::nodes::calls_ok(Mod { m, tab, n }),
    decreases n,
{
    let c = Mod { m, tab, n };
    assert forall|k: int| 0 <= k < tab.len() implies #[trigger] c.m[k].blocks.len() > 0
        && c.m[k].blocks[0].params == 4 by {
        assert(crate::nodes::done_ok(tab, k, m[k]));
    }
    assert forall|k: int, j: nat|
        0 <= k < c.tab.len() && j < c.n implies #[trigger] crate::nodes::right_fn(
        c.m,
        c.tab,
        k,
        j,
        c.m[k],
    ) by {
        lemma_calls_ok(m, tab, j);
        let less = Mod { m, tab, n: j };
        assert(crate::nodes::callable(less, tab));
        assert(crate::nodes::done_ok(tab, k, m[k]));
    }
}

/// Why no parser can be compiled for a type, where none can: it cannot be read, or
/// is too large.
pub open spec fn turned_down(ty: TyV) -> Option<CompileError> {
    match unreadable(ty, Seq::empty()) {
        Some(e) => Some(e),
        None => if crate::plan::weight(ty) > crate::plan::MAX_WEIGHT {
            Some(CompileError::Large)
        } else {
            None
        },
    }
}

/// The code of a parser for a type. It can be handed over.
pub fn code(ty: &Ty) -> (r: Result<Code, CompileError>)
    ensures
        match turned_down(ty@) {
            Some(e) => r == Err::<Code, CompileError>(e),
            None => r is Ok && r->Ok_0.main@.blocks.len() > 0 && r->Ok_0.main@.blocks[0].params == 3
                && parses(ty@, funcs_view(r->Ok_0.funcs@), r->Ok_0.main@) && r->Ok_0.funcs@.len()
                == crate::plan::recs(ty@) && crate::jit::all_fit(&r->Ok_0.main, r->Ok_0.funcs@),
        },
{
    let sites: Vec<Site> = Vec::new();
    assert(sites@ =~= Seq::empty());
    match check(ty, &sites) {
        Some(e) => {
            return Err(e);
        },
        None => {},
    }
    if crate::plan::weigh(ty) > crate::plan::MAX_WEIGHT {
        return Err(CompileError::Large);
    }
    let mut b: Build = Build { funcs: Vec::new(), tab: Ghost(Seq::empty()) };
    let env: Vec<(Site, usize, &Ty)> = Vec::new();
    let ghost ix = crate::nodes::indices(env@);
    assert(crate::nodes::sites_of(env@) =~= Seq::empty());
    assert(ix =~= Seq::empty());
    let ghost b0 = b;
    let mut f: FuncIr = FuncIr::new(3);
    let dst: Value = Value::Param(0, 0);
    let ptr: Value = Value::Param(0, 1);
    let len: Value = Value::Param(0, 2);
    let ghost p = f.point();
    proof {
        crate::ir::lemma_laid_none(p);
    }
    let end: Value = f.emit(Inst::Iadd(ptr, len));
    let sc: Value = f.emit(Inst::Scratch);
    let x: Pctx = Pctx { end, sc };
    let ghost line = Seq::<Inst>::empty().push(Inst::Iadd(ptr, len)).push(Inst::Scratch);
    let ghost p1 = f.point();
    assert(crate::ir::laid(f@, p, line));
    let e: Value = parse(&mut b, &mut f, ty, &env, dst, ptr, &x);
    let ghost to = f.point();
    f.end(Term::Return(Args::Zero));
    let ghost done = b;
    let Build { funcs, tab: Ghost(tab) } = b;
    proof {
        crate::tidy::lemma_fits(f.point(), funcs@.len());
        assert forall|k: int| 0 <= k < funcs@.len() implies crate::lower::fit(
            (#[trigger] funcs@[k])@,
            funcs@.len(),
        ) && crate::lower::stores_fit(funcs@[k]@) by {
            assert(crate::nodes::complete(done.funcs@[k], tab.len() as int));
            crate::tidy::lemma_fits(funcs@[k].point(), funcs@.len());
        }
        let q = f@;
        let m = funcs_view(funcs@);
        assert forall|k: int| 0 <= k < tab.len() implies #[trigger] crate::nodes::done_ok(
            tab,
            k,
            m[k],
        ) by {
            assert(crate::nodes::done_ok(tab, k, funcs@[k]@));
        }
        assert forall|n: nat, d: Seq<u8>, block: Block, off: u64, w: World| #[trigger]
            parses_one(ty@, m, q, n, d, block, off, w) by {
            let r = crate::read::read(n, ty@, Seq::empty(), d, 0, block, off, w.ops.len());
            let ops = crate::nodes::ops_of(r);
            if r is Some && d.len() <= i64::MAX && w.ops.len() + ops.len() <= usize::MAX {
                let c = Mod { m, tab, n };
                lemma_calls_ok(m, tab, n);
                crate::ir::lemma_has_all(to.f, q);
                lemma_main(c, tab, q, ty@, ix, p, p1, to, dst, ptr, len, x, e, line, d, block, off, w);
            }
        }
        assert(crate::ir::block_extends(p.f.blocks[0], to.f.blocks[0]));
        assert(crate::ir::block_extends(to.f.blocks[0], q.blocks[0]));
    }
    Ok(Code { main: f, funcs })
}

/// The function that is called sets reading up, reads, and returns.
proof fn lemma_main(
    c: Mod,
    tab: Seq<Entry>,
    q: FuncV,
    ty: TyV,
    ix: Seq<usize>,
    p: Point,
    p1: Point,
    to: Point,
    dst: Value,
    ptr: Value,
    len: Value,
    x: Pctx,
    e: Value,
    line: Seq<Inst>,
    d: Seq<u8>,
    block: Block,
    off: u64,
    w: World,
)
    requires
        dst == Value::Param(0, 0),
        ptr == Value::Param(0, 1),
        len == Value::Param(0, 2),
        ix == Seq::<usize>::empty(),
        crate::nodes::callable(c, tab),
        line == Seq::empty().push(Inst::Iadd(ptr, len)).push(Inst::Scratch),
        crate::ir::laid(q, p, line),
        crate::ir::open_at(p),
        p.cur == 0,
        crate::ir::size_at(p) == 0,
        p1.cur == 0,
        crate::ir::size_at(p1) == 2,
        crate::ir::extends(p.f, p1.f),
        crate::ir::extends(to.f, q),
        crate::ir::built(p.f, dst),
        crate::ir::built(p.f, ptr),
        x.end == crate::ir::slot(p, 0),
        x.sc == crate::ir::slot(p, 1),
        crate::nodes::reads(tab, ty, ix, p1, to, dst, ptr, x, e),
        crate::ir::sealed(q, to, Term::Return(Args::Zero)),
        crate::read::read(c.n, ty, Seq::empty(), d, 0, block, off, w.ops.len()) is Some,
        d.len() <= i64::MAX,
        w.ops.len() + crate::nodes::ops_of(
            crate::read::read(c.n, ty, Seq::empty(), d, 0, block, off, w.ops.len()),
        ).len() <= usize::MAX,
    ensures
        writes(
            c.m,
            q,
            main_args(d, block, off),
            w,
            crate::nodes::ops_of(
                crate::read::read(c.n, ty, Seq::empty(), d, 0, block, off, w.ops.len()),
            ),
        ),
{
    let r = crate::read::read(c.n, ty, Seq::empty(), d, 0, block, off, w.ops.len());
    let ops = crate::nodes::ops_of(r);
    let last = crate::nodes::end_of(r);
    let args = main_args(d, block, off);
    let s = crate::ir::entry(args, w);
    assert(crate::ir::get(s.vals, dst) == Some(args[0]));
    assert(crate::ir::get(s.vals, ptr) == Some(args[1]));
    assert(crate::ir::get(s.vals, len) == Some(args[2]));
    let g = Line { m: c.m, q, p0: p.f, s0: s, o: p, l: line };
    g.begin(s);
    let a = g.iadd(s, 0, crate::cursor::spot(d, d.len() as int));
    let b = g.scratch(a, 1, Val::Ptr(Region::Scratch, 0));
    assert(crate::ir::get(b.vals, dst) == crate::ir::get(s.vals, dst));
    assert(crate::ir::get(b.vals, ptr) == crate::ir::get(s.vals, ptr));
    assert(crate::nodes::scope(c.tab, ix) =~= Seq::empty());
    assert(crate::nodes::result(c, b, ty, ix, dst, ptr, x) == r);
    assert(crate::nodes::ready_read(c, tab, q, b, p1, to, ty, ix, dst, ptr, x));
    let t = crate::leaf::read_got(c.m, q, b, p1, to, e, d, ops, last);
    crate::ir::lemma_goes_trans(c.m, q, s, b, t);
    assert(crate::ir::returned(q, t) == Some((Val::Int(0), t.world)));
    let n = crate::binder::lemma_gives_back(c.m, q, s, t, (Val::Int(0), t.world));
    assert(has_written(crate::ir::run(c.m, q, crate::ir::entry(args, w), n), w, ops));
}

/// A type whose back-edges lead to types around them is never refused for a
/// back-edge; so no layout of a type that was read from debugging information is.
pub proof fn law_tied_types_are_not_unbound(ty: TyV, sites: Seq<Site>)
    requires
        crate::classify::closed_in(ty, sites),
    ensures
        unreadable(ty, sites) != Some(CompileError::Unbound),
    decreases ty, 0nat,
{
    match ty {
        TyV::Struct { name, fields } => lemma_tied_fields(fields, fields.len(), sites),
        TyV::Tuple { fields } => lemma_tied_fields(fields, fields.len(), sites),
        TyV::Vec { elem, .. } => law_tied_types_are_not_unbound(*elem, sites),
        TyV::Opt { inner, .. } => law_tied_types_are_not_unbound(*inner, sites),
        TyV::Boxed { inner, .. } => law_tied_types_are_not_unbound(*inner, sites),
        TyV::BTreeMap { val, .. } => law_tied_types_are_not_unbound(*val, sites),
        TyV::Rec { site, body } => law_tied_types_are_not_unbound(*body, sites.push(site)),
        _ => {},
    }
}

proof fn lemma_tied_fields(fields: Seq<FieldV>, n: nat, sites: Seq<Site>)
    requires
        crate::classify::fields_closed(fields, n, sites),
    ensures
        unreadable_fields(fields, n, sites) != Some(CompileError::Unbound),
    decreases fields, n,
{
    if !(n == 0 || n > fields.len()) {
        lemma_tied_fields(fields, (n - 1) as nat, sites);
        law_tied_types_are_not_unbound(fields[n - 1].ty, sites);
    }
}

// ---------------------------------------------------------------------------
// Which types parsers are made for.
// ---------------------------------------------------------------------------

/// Whether code reads values of a type, as far as it reads its parts.
pub open spec fn is_read(t: TyV) -> bool {
    match t {
        TyV::Bool | TyV::Char | TyV::U(_) | TyV::I(_) | TyV::F32 | TyV::F64 | TyV::Unit => true,
        TyV::Str(seq) => seq.ptr_off < 0x8000_0000 && seq.cap_off < 0x8000_0000 && seq.len_off < 0x8000_0000,
        TyV::StrRef { ptr_off, len_off } => ptr_off < 0x8000_0000 && len_off < 0x8000_0000,
        TyV::Struct { name, fields } => fields_are_near(fields),
        TyV::Tuple { fields } => fields_are_near(fields),
        TyV::Vec { elem, elem_size, elem_align, seq } => elem_size <= i64::MAX && elem_align <= i64::MAX && seq.ptr_off
            < 0x8000_0000 && seq.cap_off < 0x8000_0000 && seq.len_off < 0x8000_0000,
        TyV::Opt { disc_off, disc_size, none_discr, some_discr, payload_off, size, inner } => (disc_size == 1 || disc_size
            == 2 || disc_size == 4 || disc_size == 8) && disc_off < 0x8000_0000 && payload_off <= i64::MAX,
        TyV::Boxed { inner, size, align } => size <= i64::MAX && align <= i64::MAX,
        TyV::BTreeMap { key, key_size, val, val_size, new_at, insert } => (*key matches TyV::Str(seq) && seq.ptr_off
            < 0x8000_0000 && seq.cap_off < 0x8000_0000 && seq.len_off < 0x8000_0000) && key_size <= i64::MAX && val_size
            <= i64::MAX && new_at <= i64::MAX && insert <= i64::MAX,
        TyV::Rec { .. } => true,
        TyV::Ref(_) => true,
        TyV::Unknown(_) => false,
    }
}

/// Whether the offsets and names of fields are such as code can hold.
pub open spec fn fields_are_near(fields: Seq<FieldV>) -> bool {
    forall|k: int|
        0 <= k < fields.len() ==> (#[trigger] fields[k]).offset <= i64::MAX && encode_utf8(fields[k].name).len()
            <= i32::MAX
}

/// Whether all types in a type are read.
pub open spec fn all_read(ty: TyV) -> bool {
    forall|t: TyV, n: nat| #[trigger] crate::plan::is_in(t, ty, n) ==> is_read(t)
}

proof fn lemma_fields_read(fields: Seq<FieldV>, sites: Seq<Site>)
    requires
        unreadable_fields(fields, fields.len(), sites) is None,
    ensures
        fields_are_near(fields),
        forall|k: int| 0 <= k < fields.len() ==> unreadable((#[trigger] fields[k]).ty, sites) is None,
{
    assert forall|k: int| 0 <= k < fields.len() implies (#[trigger] fields[k]).offset <= i64::MAX && encode_utf8(
        fields[k].name,
    ).len() <= i32::MAX && unreadable(fields[k].ty, sites) is None by {
        lemma_unreadable_fields(fields, fields.len(), sites, k);
    }
}

proof fn lemma_all_read(ty: TyV, sites: Seq<Site>, t: TyV, n: nat)
    requires
        unreadable(ty, sites) is None,
        crate::plan::is_in(t, ty, n),
    ensures
        is_read(t),
    decreases n,
{
    match ty {
        TyV::Struct { name, fields } => lemma_fields_read(fields, sites),
        TyV::Tuple { fields } => lemma_fields_read(fields, sites),
        _ => {},
    }
    if n > 0 {
        let p = choose|p: TyV| #[trigger] crate::plan::is_part(p, ty) && crate::plan::is_in(t, p, (n - 1) as nat);
        let around = match ty {
            TyV::Rec { site, body } => sites.push(site),
            _ => sites,
        };
        lemma_all_read(p, around, t, (n - 1) as nat);
    }
}

proof fn lemma_part_read(ty: TyV, p: TyV)
    requires
        all_read(ty),
        crate::plan::is_part(p, ty),
    ensures
        all_read(p),
{
    assert forall|t: TyV, n: nat| #[trigger] crate::plan::is_in(t, p, n) implies is_read(t) by {
        assert(crate::plan::is_in(t, ty, n + 1));
    }
}

proof fn lemma_not_unreadable(ty: TyV, sites: Seq<Site>)
    requires
        all_read(ty),
        crate::classify::closed_in(ty, sites),
    ensures
        unreadable(ty, sites) is None,
    decreases ty, 0nat,
{
    assert(crate::plan::is_in(ty, ty, 0));
    match ty {
        TyV::Struct { name, fields } => lemma_fields_not_unreadable(ty, fields, fields.len(), sites),
        TyV::Tuple { fields } => lemma_fields_not_unreadable(ty, fields, fields.len(), sites),
        TyV::Vec { elem, elem_size, elem_align, seq } => {
            lemma_part_read(ty, *elem);
            lemma_not_unreadable(*elem, sites);
        },
        TyV::Opt { disc_off, disc_size, none_discr, some_discr, payload_off, size, inner } => {
            lemma_part_read(ty, *inner);
            lemma_not_unreadable(*inner, sites);
        },
        TyV::Boxed { inner, size, align } => {
            lemma_part_read(ty, *inner);
            lemma_not_unreadable(*inner, sites);
        },
        TyV::BTreeMap { key, key_size, val, val_size, new_at, insert } => {
            lemma_part_read(ty, *val);
            lemma_not_unreadable(*val, sites);
        },
        TyV::Rec { site, body } => {
            lemma_part_read(ty, *body);
            lemma_not_unreadable(*body, sites.push(site));
        },
        _ => {},
    }
}

proof fn lemma_fields_not_unreadable(ty: TyV, fields: Seq<FieldV>, n: nat, sites: Seq<Site>)
    requires
        n <= fields.len(),
        all_read(ty),
        ty matches TyV::Struct { name, fields: fs } ==> fs == fields,
        ty matches TyV::Tuple { fields: fs } ==> fs == fields,
        ty is Struct || ty is Tuple,
        crate::classify::fields_closed(fields, n, sites),
    ensures
        unreadable_fields(fields, n, sites) is None,
    decreases fields, n,
{
    if n > 0 {
        lemma_fields_not_unreadable(ty, fields, (n - 1) as nat, sites);
        assert(crate::plan::is_in(ty, ty, 0));
        assert(fields[n - 1].offset <= i64::MAX);
        assert(crate::plan::is_part(fields[n - 1].ty, ty));
        lemma_part_read(ty, fields[n - 1].ty);
        lemma_not_unreadable(fields[n - 1].ty, sites);
    }
}

/// A parser is made for just those types, not too large and with every back-edge tied,
/// in which no type is unknown, a map has strings for keys, a discriminant takes one,
/// two, four or eight bytes, and offsets, sizes and addresses are such as code can hold.
pub proof fn law_parser_is_made_for_what_is_read(ty: TyV)
    requires
        crate::classify::closed_in(ty, Seq::empty()),
    ensures
        turned_down(ty) is None <==> all_read(ty) && crate::plan::weight(ty) <= 2_000_000,
{
    if unreadable(ty, Seq::empty()) is None {
        assert forall|t: TyV, n: nat| #[trigger] crate::plan::is_in(t, ty, n) implies is_read(t) by {
            lemma_all_read(ty, Seq::empty(), t, n);
        }
    }
    if all_read(ty) {
        lemma_not_unreadable(ty, Seq::empty());
    }
}

} // verus!
