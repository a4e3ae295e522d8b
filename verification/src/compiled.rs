//! What compiled code does when it runs: the steps that a [`Jit`]'s functions were
//! handed over as, the functions at the addresses that the [`Jit`] was given, and the
//! bytes at the addresses that it keeps, come together to what the code means.
use crate::fills::{blank, leaves};
use crate::interp::Block;
use crate::ir::{FuncV, Region, Shim, Val, World};
use crate::jit::{Hooks, Jit};
use crate::json::JsonV;
use crate::lower::{Links, Numbers, Origin};
use crate::machine::{entered, key_of, laid, run, Setting};
use crate::memory::Mem;
use crate::plan::TyV;
use vstd::prelude::*;

verus! {

/// The address that is given for what code asks for.
pub open spec fn address(h: Hooks, shim: Shim) -> usize {
    match shim {
        Shim::ObjGet => h.obj_get,
        Shim::ArrLen => h.arr_len,
        Shim::ArrGet => h.arr_get,
        Shim::AsU64 => h.as_u64,
        Shim::AsI64 => h.as_i64,
        Shim::AsF64 => h.as_f64,
        Shim::AsBool => h.as_bool,
        Shim::AsChar => h.as_char,
        Shim::StrPtr => h.str_ptr,
        Shim::StrLen => h.str_len,
        Shim::Dup => h.dup,
        Shim::Alloc => h.alloc,
        Shim::Skip => h.skip,
        Shim::F64v => h.f64v,
        Shim::CharAt => h.char_at,
    }
}

/// Whether what lies at the addresses does what they were given for.
pub open spec fn serves(does: spec_fn(usize) -> Option<Shim>, h: Hooks) -> bool {
    forall|shim: Shim| does(#[trigger] address(h, shim)) == Some(shim)
}

/// What a call of a function without code comes to: what lies at the address that its
/// name has.
pub open spec fn imported(jit: Jit, does: spec_fn(usize) -> Option<Shim>, id: u32) -> Option<Shim> {
    let have = crate::lower::declared_of(jit.module());
    let known = crate::lower::known_to(jit.module());
    if have.contains_key(id) && have[id].origin == Origin::Import && known.contains_key(have[id].name) {
        does(known[have[id].name])
    } else {
        None
    }
}

/// What a [`Jit`]'s functions run in, where something is at the addresses, some bytes
/// lie at others, and some constants are addresses of such.
pub open spec fn setting(
    jit: Jit,
    does: spec_fn(usize) -> Option<Shim>,
    kept: spec_fn(u64, Seq<u8>) -> bool,
    names: spec_fn(u32, u32) -> Option<Seq<u8>>,
) -> Setting {
    Setting {
        code: crate::lower::defined_of(jit.module()),
        hooks: Map::new(|id: u32| imported(jit, does, id) is Some, |id: u32| imported(jit, does, id)->0),
        kept,
        names,
    }
}

/// Whether the bytes of keys lie where their addresses say.
pub open spec fn keeps(kept: spec_fn(u64, Seq<u8>) -> bool, jit: Jit) -> bool {
    forall|name: Seq<char>, a: u64| #[trigger] jit.key_at(name, a) ==> kept(a, vstd::utf8::encode_utf8(name))
}

/// A call of what code asks for leads to the address that was given for it.
pub proof fn law_calls_lead_to_their_hooks(jit: Jit, does: spec_fn(usize) -> Option<Shim>, shim: Shim)
    requires
        jit.wf(),
        serves(does, jit.hooks()),
    ensures
        ({
            let id = jit.shims()[crate::lower::place(shim)];
            let have = crate::lower::declared_of(jit.module());
            let known = crate::lower::known_to(jit.module());
            &&& have.contains_key(id) && have[id].origin == Origin::Import
            &&& known.contains_key(have[id].name)
            &&& known[have[id].name] == address(jit.hooks(), shim)
            &&& imported(jit, does, id) == Some(shim)
            &&& !crate::lower::defined_of(jit.module()).contains_key(id)
        }),
{
    let k = crate::lower::place(shim);
    let id = jit.shims()[k];
    assert(0 <= k < crate::jit::HOOKS);
    assert(jit.hooks().at(k) == address(jit.hooks(), shim));
}

/// Whether the numbers of the values of a function are those by which its constants
/// are known.
pub open spec fn reads_as(
    jit: Jit,
    ids: Seq<u32>,
    f: FuncV,
    id: u32,
    keys: Seq<u64>,
    n: Numbers,
    order: Seq<usize>,
) -> bool {
    &&& keys.len() == f.keys.len()
    &&& forall|k: int| 0 <= k < keys.len() ==> jit.key_at(f.keys[k], #[trigger] keys[k])
    &&& crate::lower::defined_of(jit.module()).contains_key(id)
    &&& crate::jit::spelled_as(
        crate::lower::defined_of(jit.module())[id],
        (Links { keys, shims: jit.shims(), funcs: ids }),
        f,
        n,
        order,
    )
}

/// How the values of a function are numbered.
pub open spec fn numbers(jit: Jit, ids: Seq<u32>, f: FuncV, id: u32) -> Numbers {
    let (keys, n, order) = choose|keys: Seq<u64>, n: Numbers, order: Seq<usize>| #[trigger]
        reads_as(jit, ids, f, id, keys, n, order);
    n
}

/// Which constants of a function, and of those that it calls, are addresses of bytes.
pub open spec fn names_of(jit: Jit, ids: Seq<u32>, m: Seq<FuncV>, f: FuncV, id: u32, r: u32) -> Option<Seq<u8>> {
    if ids.contains(id) {
        let k = choose|k: int| 0 <= k < ids.len() && ids[k] == id;
        key_of(numbers(jit, ids, m[k], id), m[k], r)
    } else {
        key_of(numbers(jit, ids, f, id), f, r)
    }
}

proof fn lemma_laid(
    jit: Jit,
    does: spec_fn(usize) -> Option<Shim>,
    kept: spec_fn(u64, Seq<u8>) -> bool,
    names: spec_fn(u32, u32) -> Option<Seq<u8>>,
    ids: Seq<u32>,
    f: FuncV,
    id: u32,
)
    requires
        jit.wf(),
        serves(does, jit.hooks()),
        keeps(kept, jit),
        jit.holds(id, ids, f),
        forall|r: u32| #[trigger] names(id, r) == key_of(numbers(jit, ids, f, id), f, r),
    ensures
        crate::machine::is_laid(setting(jit, does, kept, names), ids, id, f),
{
    let e = setting(jit, does, kept, names);
    let some = choose|keys: Seq<u64>| #[trigger] jit.holds_with(id, ids, f, keys);
    let links = Links { keys: some, shims: jit.shims(), funcs: ids };
    let steps = crate::lower::defined_of(jit.module())[id];
    assert(crate::jit::spelled(steps, links, f));
    let (n0, o0) = choose|n: Numbers, order: Seq<usize>| #[trigger]
        crate::jit::spelled_as(steps, links, f, n, order);
    assert(reads_as(jit, ids, f, id, some, n0, o0));
    let (keys, n, order) = choose|keys: Seq<u64>, n: Numbers, order: Seq<usize>| #[trigger]
        reads_as(jit, ids, f, id, keys, n, order);
    assert(reads_as(jit, ids, f, id, keys, n, order));
    let l = Links { keys, shims: jit.shims(), funcs: ids };
    assert forall|shim: Shim| {
        let func = l.shims[#[trigger] crate::lower::place(shim)];
        e.hooks.dom().contains(func) && e.hooks[func] == shim && !e.code.dom().contains(func)
    } by {
        law_calls_lead_to_their_hooks(jit, does, shim);
    }
    assert forall|k: int| 0 <= k < l.keys.len() implies (e.kept)(
        #[trigger] l.keys[k],
        vstd::utf8::encode_utf8(f.keys[k]),
    ) by {
        assert(jit.key_at(f.keys[k], keys[k]));
    }
    assert(crate::machine::suits(e, id, n, l, f));
    assert(laid(e, ids, id, f, n, l, order));
}

/// What running a [`Jit`]'s function comes to.
pub open spec fn comes_to(e: Setting, func: u32, args: Seq<Val>, w: World, fuel: nat) -> Option<(Val, World)> {
    match entered(e.code[func], args, w) {
        Some(t) => run(e, func, t, fuel),
        None => None,
    }
}

/// A function that a [`Jit`] offers for some code comes to what the code comes to.
pub proof fn law_offered_code_runs(
    jit: Jit,
    does: spec_fn(usize) -> Option<Shim>,
    kept: spec_fn(u64, Seq<u8>) -> bool,
    func: u32,
    f: FuncV,
    m: Seq<FuncV>,
    args: Seq<Val>,
    w: World,
    fuel: nat,
)
    requires
        jit.wf(),
        serves(does, jit.hooks()),
        keeps(kept, jit),
        jit.offers(func, f, m),
        f.blocks[0].params == args.len(),
        crate::ir::run(m, f, crate::ir::entry(args, w), fuel) is Some,
    ensures
        exists|names: spec_fn(u32, u32) -> Option<Seq<u8>>|
            comes_to(#[trigger] setting(jit, does, kept, names), func, args, w, fuel) == crate::ir::run(
                m,
                f,
                crate::ir::entry(args, w),
                fuel,
            ),
{
    let ids = choose|ids: Seq<u32>| #[trigger] jit.runs_with(func, ids, f, m);
    let names = |id: u32, r: u32| names_of(jit, ids, m, f, id, r);
    let e = setting(jit, does, kept, names);
    assert(!ids.contains(func));
    lemma_laid(jit, does, kept, names, ids, f, func);
    assert forall|k: int| 0 <= k < m.len() implies crate::machine::is_laid(e, ids, #[trigger] ids[k], m[k]) by {
        assert(jit.runs(ids[k], ids, m[k]));
        assert forall|r: u32| #[trigger] names(ids[k], r) == key_of(numbers(jit, ids, m[k], ids[k]), m[k], r) by {
            let j = choose|j: int| 0 <= j < ids.len() && ids[j] == ids[k];
            assert(ids.contains(ids[k]));
            if j < k {
                assert(ids[j] != ids[k]);
            } else if k < j {
                assert(ids[k] != ids[j]);
            }
        }
        lemma_laid(jit, does, kept, names, ids, m[k], ids[k]);
    }
    crate::machine::law_steps_do_what_code_means(e, ids, m, func, f, args, w, fuel);
}

/// Whether a [`Jit`]'s function, called with some arguments, returns, and leaves memory
/// that holds a document as a type.
pub open spec fn leaves_when_run(
    jit: Jit,
    does: spec_fn(usize) -> Option<Shim>,
    kept: spec_fn(u64, Seq<u8>) -> bool,
    func: u32,
    args: Seq<Val>,
    ty: TyV,
    v: JsonV,
    mem: Mem,
) -> bool {
    exists|names: spec_fn(u32, u32) -> Option<Seq<u8>>, fuel: nat|
        leaves(#[trigger] comes_to(setting(jit, does, kept, names), func, args, blank(), fuel), ty, v, mem)
}

/// A parser that was compiled, called with a place and a text, leaves memory that holds
/// the document which the text writes down, its numbers with their signs: on the texts
/// on which the code of a parser does.
pub proof fn law_compiled_parser_fills(
    jit: Jit,
    does: spec_fn(usize) -> Option<Shim>,
    kept: spec_fn(u64, Seq<u8>) -> bool,
    func: u32,
    n: nat,
    ty: TyV,
    d: Seq<u8>,
    mem: Mem,
)
    requires
        jit.wf(),
        serves(does, jit.hooks()),
        keeps(kept, jit),
        crate::jit::is_parser(jit, func, ty),
        crate::memory::no_overlap(ty, Seq::empty()),
        crate::memory::span(ty, Seq::empty(), 0) matches Some(size) && size <= u64::MAX,
        crate::bounds::roomy(ty, Seq::empty(), false),
        d.len() <= i64::MAX,
        crate::written::plain_value(d, 0),
        crate::reading::verbatim(ty, Seq::empty(), 0, d, 0),
        crate::json::value_at(d, 0) matches Some((v, e)) && crate::reading::suits(ty, Seq::empty(), 0, v)
            && crate::complete::at_most(crate::complete::depth(ty, Seq::empty(), 0, v), n),
        crate::read::read(n, ty, Seq::empty(), d, 0, Block::Dest, 0, 0) matches Some((ops, end))
            ==> ops.len() <= usize::MAX,
    ensures
        leaves_when_run(
            jit,
            does,
            kept,
            func,
            crate::parser::main_args(d, Block::Dest, 0),
            ty,
            crate::json::value_at(d, 0).unwrap().0,
            mem,
        ),
{
    let (f, m) = choose|f: FuncV, m: Seq<FuncV>|
        crate::parser::parses(ty, m, f) && f.blocks[0].params == 3 && #[trigger] jit.offers(func, f, m);
    crate::fills::law_parser_fills(n, ty, f, m, d, mem);
    let v = crate::json::value_at(d, 0).unwrap().0;
    let args = crate::parser::main_args(d, Block::Dest, 0);
    let fuel = choose|fuel: nat|
        leaves(#[trigger] crate::ir::run(m, f, crate::ir::entry(args, blank()), fuel), ty, v, mem);
    law_offered_code_runs(jit, does, kept, func, f, m, args, blank(), fuel);
    let names = choose|names: spec_fn(u32, u32) -> Option<Seq<u8>>|
        comes_to(#[trigger] setting(jit, does, kept, names), func, args, blank(), fuel) == crate::ir::run(
            m,
            f,
            crate::ir::entry(args, blank()),
            fuel,
        );
    assert(leaves(comes_to(setting(jit, does, kept, names), func, args, blank(), fuel), ty, v, mem));
}

/// A binder that was compiled, called with a place and a document, leaves memory that
/// holds the document as the type: on the documents on which the code of a binder does.
pub proof fn law_compiled_binder_fills(
    jit: Jit,
    does: spec_fn(usize) -> Option<Shim>,
    kept: spec_fn(u64, Seq<u8>) -> bool,
    func: u32,
    ty: TyV,
    v: JsonV,
    mem: Mem,
)
    requires
        jit.wf(),
        serves(does, jit.hooks()),
        keeps(kept, jit),
        crate::jit::is_binder(jit, func, ty),
        crate::binder::narrow(ty) == ty,
        crate::memory::no_overlap(ty, Seq::empty()),
        crate::memory::span(ty, Seq::empty(), 0) is Some,
        crate::interp::bind(ty, Seq::empty(), 0, v, Block::Dest, 0, 0) is Ok,
        crate::interp::bind(ty, Seq::empty(), 0, v, Block::Dest, 0, 0)->Ok_0.len() <= usize::MAX,
    ensures
        leaves_when_run(
            jit,
            does,
            kept,
            func,
            Seq::empty().push(Val::Ptr(Region::Out(Block::Dest), 0)).push(Val::Node(v)),
            ty,
            v,
            mem,
        ),
{
    let m = Seq::<FuncV>::empty();
    let f = choose|f: FuncV|
        crate::binder::binds(crate::binder::narrow(ty), f) && f.blocks[0].params == 2 && #[trigger] jit.offers(
            func,
            f,
            Seq::empty(),
        );
    crate::fills::law_binder_fills(ty, f, m, v, mem);
    let args = Seq::empty().push(Val::Ptr(Region::Out(Block::Dest), 0)).push(Val::Node(v));
    let fuel = choose|fuel: nat|
        leaves(#[trigger] crate::ir::run(m, f, crate::ir::entry(args, blank()), fuel), ty, v, mem);
    law_offered_code_runs(jit, does, kept, func, f, m, args, blank(), fuel);
    let names = choose|names: spec_fn(u32, u32) -> Option<Seq<u8>>|
        comes_to(#[trigger] setting(jit, does, kept, names), func, args, blank(), fuel) == crate::ir::run(
            m,
            f,
            crate::ir::entry(args, blank()),
            fuel,
        );
    assert(leaves(comes_to(setting(jit, does, kept, names), func, args, blank(), fuel), ty, v, mem));
}

/// Every hook is declared with as many values as code passes to it, and with a
/// floating-point result just where it gives a floating-point number back.
pub proof fn law_hooks_take_what_code_passes(jit: Jit, shim: Shim, args: Seq<Val>, w: World)
    requires
        jit.wf(),
        crate::machine::hooked(shim, args, w) is Some,
    ensures
        ({
            let decl = crate::lower::declared_of(jit.module())[jit.shims()[crate::lower::place(shim)]];
            &&& decl.params == args.len()
            &&& crate::machine::hooked(shim, args, w) matches Some((r, _)) && (decl.ret is Float <==> r is Float)
            &&& !(decl.ret is Nothing)
        }),
{
    let k = crate::lower::place(shim);
    let id = jit.shims()[k];
    assert(0 <= k < crate::jit::HOOKS);
    assert(crate::lower::declared_of(jit.module()).contains_key(id));
}

} // verus!
