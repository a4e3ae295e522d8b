//! What compiled code leaves in memory: the document, as the type.
use crate::interp::Block;
use crate::ir::{FuncV, Region, Val, World};
use crate::json::JsonV;
use crate::memory::Mem;
use crate::plan::{FieldV, TyV};
use vstd::prelude::*;

verus! {

/// Nothing written yet.
pub open spec fn blank() -> World {
    World { ops: Seq::empty(), scratch: None }
}

/// Whether a function has returned, and its writes leave memory that holds a document
/// as a type.
pub open spec fn leaves(r: Option<(Val, World)>, ty: TyV, v: JsonV, mem: Mem) -> bool {
    match r {
        Some((_, w)) => crate::memory::shows(
            ty,
            Seq::empty(),
            0,
            v,
            crate::memory::after(mem, w.ops),
            Block::Dest,
            0,
            0,
            w.ops.len() as int,
        ),
        None => false,
    }
}

/// Whether a function, called with some arguments, returns and leaves memory so.
pub open spec fn fills(m: Seq<FuncV>, f: FuncV, args: Seq<Val>, ty: TyV, v: JsonV, mem: Mem) -> bool {
    exists|n: nat| leaves(#[trigger] crate::ir::run(m, f, crate::ir::entry(args, blank()), n), ty, v, mem)
}

/// The code of a binder, called with a place and a document, leaves memory that holds
/// the document as the type: where the interpreter binds the one to the other, and
/// the type's parts do not overlap.
pub proof fn law_binder_fills(ty: TyV, f: FuncV, m: Seq<FuncV>, v: JsonV, mem: Mem)
    requires
        crate::binder::binds(crate::binder::narrow(ty), f),
        crate::binder::narrow(ty) == ty,
        crate::memory::no_overlap(ty, Seq::empty()),
        crate::memory::span(ty, Seq::empty(), 0) is Some,
        crate::interp::bind(ty, Seq::empty(), 0, v, Block::Dest, 0, 0) is Ok,
        crate::interp::bind(ty, Seq::empty(), 0, v, Block::Dest, 0, 0)->Ok_0.len() <= usize::MAX,
    ensures
        fills(
            m,
            f,
            Seq::empty().push(Val::Ptr(Region::Out(Block::Dest), 0)).push(Val::Node(v)),
            ty,
            v,
            mem,
        ),
{
    crate::binder::law_binder_is_interpreter(ty, f, m, v);
    crate::memory::law_laid_out_shows(ty, v, mem);
    let args = Seq::empty().push(Val::Ptr(Region::Out(Block::Dest), 0)).push(Val::Node(v));
    let w = World {
        ops: crate::interp::bind(ty, Seq::empty(), 0, v, Block::Dest, 0, 0)->Ok_0,
        scratch: None,
    };
    let n = choose|n: nat| #[trigger]
        crate::ir::run(m, f, crate::ir::entry(args, blank()), n) == Some((Val::Int(0), w));
    assert(leaves(crate::ir::run(m, f, crate::ir::entry(args, blank()), n), ty, v, mem));
}

/// The code of a parser, called with a place and a text, leaves memory that holds the
/// document which the text writes down: where that is a value of the type, written
/// without escapes in keys and in the strings that are taken over and without form
/// feeds as white space, where all blocks can be allocated, and where the type's parts
/// do not overlap.
pub proof fn law_parser_fills(n: nat, ty: TyV, f: FuncV, m: Seq<FuncV>, d: Seq<u8>, mem: Mem)
    requires
        crate::parser::parses(ty, m, f),
        crate::memory::no_overlap(ty, Seq::empty()),
        crate::memory::span(ty, Seq::empty(), 0) matches Some(size) && size <= u64::MAX,
        crate::bounds::roomy(ty, Seq::empty(), false),
        d.len() <= i64::MAX,
        crate::written::plain_value(d, 0),
        crate::reading::verbatim(ty, Seq::empty(), 0, d, 0),
        crate::json::value_at(d, 0) matches Some((v, e)) && crate::reading::suits(ty, Seq::empty(), 0, v)
            && crate::complete::at_most(crate::complete::depth(ty, Seq::empty(), 0, v), n),
        crate::read::read(n, ty, Seq::empty(), d, 0, Block::Dest, 0, 0) matches Some((ops, end))
            ==> ops.len() <= usize::MAX,
    ensures
        fills(
            m,
            f,
            crate::parser::main_args(d, Block::Dest, 0),
            ty,
            crate::json::value_at(d, 0).unwrap().0,
            mem,
        ),
{
    crate::complete::law_read_completes(n, ty, d);
    crate::reading::law_read_shows(n, ty, d, mem);
    let v = crate::json::value_at(d, 0).unwrap().0;
    let ops = crate::read::read(n, ty, Seq::empty(), d, 0, Block::Dest, 0, 0).unwrap().0;
    let args = crate::parser::main_args(d, Block::Dest, 0);
    assert(crate::parser::parses_one(ty, m, f, n, d, Block::Dest, 0, blank()));
    let k = choose|k: nat|
        crate::parser::has_written(
            #[trigger] crate::ir::run(m, f, crate::ir::entry(args, blank()), k),
            blank(),
            ops,
        );
    assert(blank().ops + ops =~= ops);
    assert(leaves(crate::ir::run(m, f, crate::ir::entry(args, blank()), k), ty, v, mem));
}

/// The code of a parser and the interpreter agree, on every type that the interpreter
/// lays values out of: after the parser has run on a text, and after the writes that
/// the interpreter lists for the document which the text writes down, memory holds the
/// same document as the type.
pub proof fn law_parser_agrees_with_interpreter(n: nat, ty: TyV, f: FuncV, m: Seq<FuncV>, d: Seq<u8>, mem: Mem)
    requires
        crate::parser::parses(ty, m, f),
        crate::complete::bindable(ty),
        crate::memory::no_overlap(ty, Seq::empty()),
        crate::memory::span(ty, Seq::empty(), 0) matches Some(size) && size <= u64::MAX,
        crate::bounds::roomy(ty, Seq::empty(), false),
        d.len() <= i64::MAX,
        crate::written::plain_value(d, 0),
        crate::reading::verbatim(ty, Seq::empty(), 0, d, 0),
        crate::json::value_at(d, 0) matches Some((v, e)) && crate::reading::suits(ty, Seq::empty(), 0, v)
            && crate::complete::at_most(crate::complete::depth(ty, Seq::empty(), 0, v), n)
            && (crate::interp::bind(ty, Seq::empty(), 0, v, Block::Dest, 0, 0) matches Ok(laid) ==> laid.len()
            <= usize::MAX),
        crate::read::read(n, ty, Seq::empty(), d, 0, Block::Dest, 0, 0) matches Some((ops, end))
            ==> ops.len() <= usize::MAX,
    ensures
        ({
            let v = crate::json::value_at(d, 0).unwrap().0;
            let laid = crate::interp::bind(ty, Seq::empty(), 0, v, Block::Dest, 0, 0)->Ok_0;
            &&& crate::interp::bind(ty, Seq::empty(), 0, v, Block::Dest, 0, 0) is Ok
            &&& fills(m, f, crate::parser::main_args(d, Block::Dest, 0), ty, v, mem)
            &&& leaves(Some((Val::Int(0), World { ops: laid, scratch: None })), ty, v, mem)
        }),
{
    law_parser_fills(n, ty, f, m, d, mem);
    crate::complete::law_bind_completes(ty, d);
    crate::memory::law_laid_out_shows(ty, crate::json::value_at(d, 0).unwrap().0, mem);
}

/// Whether two documents have the same members under the names of fields.
pub open spec fn same_members(fields: Seq<FieldV>, a: JsonV, b: JsonV) -> bool {
    forall|k: int|
        0 <= k < fields.len() ==> crate::json::get_of(a, (#[trigger] fields[k]).name) == crate::json::get_of(
            b,
            fields[k].name,
        )
}

/// Of a document that is taken as a struct, nothing but the members under the names of
/// the fields matters, neither their order nor what other members there are: the
/// interpreter lists the same writes, and memory holds the one as the struct where it
/// holds the other.
pub proof fn law_only_named_members_matter(
    name: Seq<char>,
    fields: Seq<FieldV>,
    a: JsonV,
    b: JsonV,
    mem: Mem,
    hi: int,
)
    requires
        same_members(fields, a, b),
    ensures
        ({
            let ty = TyV::Struct { name, fields };
            &&& crate::interp::bind(ty, Seq::empty(), 0, a, Block::Dest, 0, 0) == crate::interp::bind(
                ty,
                Seq::empty(),
                0,
                b,
                Block::Dest,
                0,
                0,
            )
            &&& crate::memory::shows(ty, Seq::empty(), 0, a, mem, Block::Dest, 0, 0, hi)
                == crate::memory::shows(ty, Seq::empty(), 0, b, mem, Block::Dest, 0, 0, hi)
        }),
{
    lemma_bind_named(name, fields, 0, a, b, 0);
    lemma_shows_named(fields, 0, a, b, mem, hi);
}

proof fn lemma_bind_named(name: Seq<char>, fields: Seq<FieldV>, k: nat, a: JsonV, b: JsonV, base: nat)
    requires
        same_members(fields, a, b),
    ensures
        crate::interp::bind_fields(name, fields, k, Seq::empty(), a, Block::Dest, 0, base)
            == crate::interp::bind_fields(name, fields, k, Seq::empty(), b, Block::Dest, 0, base),
    decreases fields.len() - k,
{
    if k < fields.len() {
        let f = fields[k as int];
        if let Some(at) = crate::interp::further(0, f.offset as int) {
            let first = match crate::json::get_of(a, f.name) {
                Some(sub) => crate::interp::bind(f.ty, Seq::empty(), 0, sub, Block::Dest, at, base),
                None => match crate::interp::absent(f.ty, Seq::empty(), 0, Block::Dest, at) {
                    Some(ops) => ops,
                    None => Err(crate::interp::BindErrorV::MissingKey { key: f.name, name }),
                },
            };
            if let Ok(ops) = first {
                lemma_bind_named(name, fields, k + 1, a, b, base + ops.len());
            }
        }
    }
}

proof fn lemma_shows_named(fields: Seq<FieldV>, k: nat, a: JsonV, b: JsonV, mem: Mem, hi: int)
    requires
        same_members(fields, a, b),
    ensures
        crate::memory::shows_fields(fields, k, Seq::empty(), a, mem, Block::Dest, 0, 0, hi)
            == crate::memory::shows_fields(fields, k, Seq::empty(), b, mem, Block::Dest, 0, 0, hi),
    decreases fields.len() - k,
{
    if k < fields.len() {
        let f = fields[k as int];
        lemma_shows_named(fields, k + 1, a, b, mem, hi);
    }
}

/// What the code of a parser leaves is the document, whatever the order of its members,
/// and whatever members it has that no field is named after: where it leaves memory
/// that holds the document as a struct, that memory holds as much every document with
/// the same members under the names of the fields.
pub proof fn law_parser_takes_members_by_name(
    name: Seq<char>,
    fields: Seq<FieldV>,
    f: FuncV,
    m: Seq<FuncV>,
    args: Seq<Val>,
    a: JsonV,
    b: JsonV,
    mem: Mem,
)
    requires
        same_members(fields, a, b),
        fills(m, f, args, TyV::Struct { name, fields }, a, mem),
    ensures
        fills(m, f, args, TyV::Struct { name, fields }, b, mem),
{
    let ty = TyV::Struct { name, fields };
    let n = choose|n: nat| leaves(#[trigger] crate::ir::run(m, f, crate::ir::entry(args, blank()), n), ty, a, mem);
    let r = crate::ir::run(m, f, crate::ir::entry(args, blank()), n);
    if let Some((x, w)) = r {
        law_only_named_members_matter(
            name,
            fields,
            a,
            b,
            crate::memory::after(mem, w.ops),
            w.ops.len() as int,
        );
    }
    assert(leaves(r, ty, b, mem));
}

} // verus!
