//! Machine code for types. A [`Jit`] holds the code that has been compiled; a
//! binder fills a place from a parsed document, a parser straight from bytes. The
//! few things that code cannot do by itself (looking into a document, allocating,
//! reading a floating-point number) it calls functions for, whose addresses the
//! [`Jit`] is given when it is made.
use crate::binder::CompileError;
use crate::ir::FuncIr;
use crate::lower::{Lowered, Origin, Refs, Ret};
use crate::plan::Ty;
use cranelift_codegen::ir as clif;
use cranelift_codegen::ir::types;
use cranelift_codegen::Context;
use cranelift_jit::{JITBuilder, JITModule};
use cranelift_module::{FuncId, Linkage, Module, ModuleError};
use vstd::prelude::*;

verus! {

/// What a module is made from.
#[verifier::external_type_specification]
#[verifier::external_body]
pub struct ExJITBuilder(JITBuilder);

/// Why a module could not do something.
#[verifier::external_type_specification]
#[verifier::external_body]
pub struct ExModuleError(ModuleError);

/// The addresses that a module is going to be told of, by name.
pub uninterp spec fn symbols_of(b: JITBuilder) -> Map<Seq<char>, usize>;

/// How many functions a module can know of: no number runs out before.
pub const MAX_FUNCS: u32 = 0x7fff_ffff;

/// `JITBuilder::new`, for the machine that this runs on. It does not return where
/// there is no code for such machines.
#[verifier::external_body]
fn new_jit_builder() -> (r: Result<JITBuilder, ModuleError>)
    ensures
        r is Ok ==> symbols_of(r->Ok_0).dom() == Set::<Seq<char>>::empty(),
{
    JITBuilder::new(cranelift_module::default_libcall_names())
}

/// `JITBuilder::symbol`: the most recent address for a name is kept.
#[verifier::external_body]
fn symbol(b: &mut JITBuilder, name: &str, addr: usize)
    ensures
        symbols_of(*final(b)) == symbols_of(*old(b)).insert(name@, addr),
{
    b.symbol(name, core::ptr::without_provenance(addr));
}

/// `JITModule::new`: a module with no functions.
#[verifier::external_body]
fn new_module(b: JITBuilder) -> (r: JITModule)
    ensures
        crate::lower::declared_of(r).dom() == Set::<u32>::empty(),
        crate::lower::defined_of(r).dom() == Set::<u32>::empty(),
        crate::lower::ready_of(r) == Set::<u32>::empty(),
        crate::lower::known_to(r) == symbols_of(b),
{
    JITModule::new(b)
}

/// Whether a module knows of a function with that name.
pub open spec fn takes_name(m: JITModule, name: Seq<char>) -> bool {
    exists|id: u32| #[trigger]
        crate::lower::declared_of(m).contains_key(id) && crate::lower::declared_of(m)[id].name == name
}

/// `Module::declare_function`, under a name that no function has; this does not
/// fail. A function of the module is announced with `Linkage::Preemptible`: cranelift
/// then takes it for one that may be far away, and calls it by its full address.
#[verifier::external_body]
fn declare_function(m: &mut JITModule, name: &str, origin: Origin, params: usize, ret: Ret) -> (r: u32)
    requires
        !takes_name(*old(m), name@),
        crate::lower::declared_of(*old(m)).len() < MAX_FUNCS,
    ensures
        !crate::lower::declared_of(*old(m)).contains_key(r),
        crate::lower::declared_of(*final(m)) == crate::lower::declared_of(*old(m)).insert(
            r,
            (crate::lower::Decl { name: name@, origin, params: params as nat, ret }),
        ),
        crate::lower::defined_of(*final(m)) == crate::lower::defined_of(*old(m)),
        crate::lower::ready_of(*final(m)) == crate::lower::ready_of(*old(m)),
        crate::lower::known_to(*final(m)) == crate::lower::known_to(*old(m)),
        crate::lower::code_at(*final(m)) == crate::lower::code_at(*old(m)),
        crate::lower::code_len(*final(m)) == crate::lower::code_len(*old(m)),
{
    let mut sig = m.make_signature();
    sig.params.resize(params, clif::AbiParam::new(types::I64));
    match ret {
        Ret::Nothing => {}
        Ret::Int => sig.returns.push(clif::AbiParam::new(types::I64)),
        Ret::Float => sig.returns.push(clif::AbiParam::new(types::F64)),
    }
    let linkage = match origin {
        Origin::Import => Linkage::Import,
        Origin::Local => Linkage::Preemptible,
    };
    m.declare_function(name, linkage, &sig).unwrap().as_u32()
}

/// Whether steps end a block.
pub open spec fn has_block(steps: Seq<crate::lower::Step>) -> bool {
    exists|k: int| 0 <= k < steps.len() && crate::lower::ends_block(#[trigger] steps[k])
}

/// Whether code that was in a module is where it was, and takes up what it did.
pub open spec fn code_stays(before: JITModule, after: JITModule) -> bool {
    forall|id: u32| #[trigger]
        crate::lower::defined_of(before).contains_key(id) ==> {
            &&& crate::lower::code_at(after)[id] == crate::lower::code_at(before)[id]
            &&& crate::lower::code_len(after)[id] == crate::lower::code_len(before)[id]
        }
}

/// `Module::define_function`, for one that has no code yet, of code that takes and
/// gives what was announced, and how many bytes of machine code it came to. Where the
/// code is turned down, nothing changes; whether it is, is for cranelift to say. It
/// does not return for a function without any block. (Where `perf` has asked for it by
/// a variable in the environment, cranelift also writes to a file in `/tmp`, and
/// expects to be let.)
#[verifier::external_body]
fn define_function(m: &mut JITModule, id: u32, func: clif::Function) -> (r: Result<usize, ModuleError>)
    requires
        crate::lower::declared_of(*old(m)).contains_key(id),
        crate::lower::declared_of(*old(m))[id].origin == Origin::Local,
        !crate::lower::defined_of(*old(m)).contains_key(id),
        has_block(crate::lower::body_of(func)),
        crate::lower::sig_of(func) == (
            crate::lower::declared_of(*old(m))[id].params,
            crate::lower::declared_of(*old(m))[id].ret,
        ),
    ensures
        code_stays(*old(m), *final(m)),
        crate::lower::declared_of(*final(m)) == crate::lower::declared_of(*old(m)),
        crate::lower::ready_of(*final(m)) == crate::lower::ready_of(*old(m)),
        crate::lower::known_to(*final(m)) == crate::lower::known_to(*old(m)),
        r is Ok ==> crate::lower::defined_of(*final(m)) == crate::lower::defined_of(*old(m)).insert(
            id,
            crate::lower::body_of(func),
        ),
        r matches Ok(n) ==> n == crate::lower::code_len(*final(m))[id],
        r is Err ==> crate::lower::defined_of(*final(m)) == crate::lower::defined_of(*old(m)),
{
    let mut ctx = Context::for_function(func);
    m.define_function(FuncId::from_u32(id), &mut ctx)?;
    Ok(ctx.compiled_code().unwrap().code_buffer().len())
}

/// Whether a function that is called has code: in the module, or at an address
/// that the module has been told of.
pub open spec fn leads_somewhere(m: JITModule, func: u32) -> bool {
    ||| crate::lower::defined_of(m).contains_key(func)
    ||| {
        &&& crate::lower::declared_of(m).contains_key(func)
        &&& crate::lower::known_to(m).contains_key(crate::lower::declared_of(m)[func].name)
    }
}

/// Whether every call in some steps leads to code.
pub open spec fn calls_lead(m: JITModule, steps: Seq<crate::lower::Step>) -> bool {
    forall|k: int|
        0 <= k < steps.len() && (#[trigger] steps[k]) is Call ==> leads_somewhere(m, steps[k]->func)
}

/// Whether every call in a module leads to code.
pub open spec fn complete(m: JITModule) -> bool {
    forall|id: u32| #[trigger]
        crate::lower::defined_of(m).contains_key(id) ==> calls_lead(m, crate::lower::defined_of(m)[id])
}

/// `JITModule::finalize_definitions`: makes what has code ready to run. It does not
/// return where a call leads to no code; on the way it may look up further names. How
/// far apart the code of two functions lies does not matter: what is written into a
/// call is the full address of what it calls.
#[verifier::external_body]
fn finalize_definitions(m: &mut JITModule) -> (r: Result<(), ModuleError>)
    requires
        complete(*old(m)),
    ensures
        code_stays(*old(m), *final(m)),
        crate::lower::declared_of(*final(m)) == crate::lower::declared_of(*old(m)),
        crate::lower::defined_of(*final(m)) == crate::lower::defined_of(*old(m)),
        crate::lower::known_to(*old(m)).submap_of(crate::lower::known_to(*final(m))),
        r is Ok ==> crate::lower::ready_of(*final(m)) == crate::lower::defined_of(*old(m)).dom(),
{
    m.finalize_definitions()
}

/// `JITModule::get_finalized_function`: where a function's code is. It does not
/// return where the function is not ready to run.
#[verifier::external_body]
fn address_of(m: &JITModule, id: u32) -> (r: usize)
    requires
        crate::lower::ready_of(*m).contains(id),
    ensures
        r == crate::lower::code_at(*m)[id],
{
    m.get_finalized_function(FuncId::from_u32(id)).addr()
}

/// `Box::leak`: the bytes, which then stay.
#[verifier::external_body]
fn leak(bytes: Vec<u8>) -> (r: &'static [u8])
    ensures
        r@ == bytes@,
{
    Box::leak(bytes.into_boxed_slice())
}

/// `slice::as_ptr`: where bytes are, which is nothing that can be said beforehand.
#[verifier::external_body]
fn place_of(bytes: &'static [u8]) -> (r: usize) {
    bytes.as_ptr().addr()
}

// ---------------------------------------------------------------------------
// The functions that compiled code calls.
// ---------------------------------------------------------------------------

/// The addresses of the functions that compiled code calls.
#[derive(Clone, Copy, PartialEq, Eq, Structural, Debug)]
pub struct Hooks {
    /// The member of an object under a key of some bytes.
    pub obj_get: usize,
    /// How many items an array has.
    pub arr_len: usize,
    /// An item of an array.
    pub arr_get: usize,
    /// A number, unsigned.
    pub as_u64: usize,
    /// A number, signed.
    pub as_i64: usize,
    /// A number, as a floating-point one.
    pub as_f64: usize,
    /// Whether a value is true.
    pub as_bool: usize,
    /// The first character of a string.
    pub as_char: usize,
    /// The bytes of a string.
    pub str_ptr: usize,
    /// How many bytes a string has.
    pub str_len: usize,
    /// A copy of some bytes.
    pub dup: usize,
    /// A block of a size and an alignment.
    pub alloc: usize,
    /// The position after a value.
    pub skip: usize,
    /// The position after a number, which is written to the place given.
    pub f64v: usize,
    /// The character that some bytes begin with.
    pub char_at: usize,
}

/// How many functions compiled code calls.
pub const HOOKS: usize = 15;

/// The name of one of them, by its place.
pub open spec fn hook_name(k: int) -> Seq<char> {
    if k == 0 {
        "rt_obj_get"@
    } else if k == 1 {
        "rt_arr_len"@
    } else if k == 2 {
        "rt_arr_get"@
    } else if k == 3 {
        "rt_as_u64"@
    } else if k == 4 {
        "rt_as_i64"@
    } else if k == 5 {
        "rt_as_f64"@
    } else if k == 6 {
        "rt_as_bool"@
    } else if k == 7 {
        "rt_as_char"@
    } else if k == 8 {
        "rt_str_ptr"@
    } else if k == 9 {
        "rt_str_len"@
    } else if k == 10 {
        "rt_dup"@
    } else if k == 11 {
        "rt_alloc"@
    } else if k == 12 {
        "rt_skip"@
    } else if k == 13 {
        "rt_f64v"@
    } else {
        "rt_char_at"@
    }
}

/// How many values it takes.
pub open spec fn hook_params(k: int) -> nat {
    if k == 0 {
        3
    } else if k == 1 {
        1
    } else if k == 2 {
        2
    } else if k == 3 {
        1
    } else if k == 4 {
        1
    } else if k == 5 {
        1
    } else if k == 6 {
        1
    } else if k == 7 {
        1
    } else if k == 8 {
        1
    } else if k == 9 {
        1
    } else if k == 10 {
        2
    } else if k == 11 {
        2
    } else if k == 12 {
        2
    } else if k == 13 {
        3
    } else {
        2
    }
}

/// What it gives back.
pub open spec fn hook_ret(k: int) -> Ret {
    if k == 5 {
        Ret::Float
    } else {
        Ret::Int
    }
}

impl Hooks {
    /// The address of one of them, by its place.
    pub open spec fn at(&self, k: int) -> usize {
        if k == 0 {
            self.obj_get
        } else if k == 1 {
            self.arr_len
        } else if k == 2 {
            self.arr_get
        } else if k == 3 {
            self.as_u64
        } else if k == 4 {
            self.as_i64
        } else if k == 5 {
            self.as_f64
        } else if k == 6 {
            self.as_bool
        } else if k == 7 {
            self.as_char
        } else if k == 8 {
            self.str_ptr
        } else if k == 9 {
            self.str_len
        } else if k == 10 {
            self.dup
        } else if k == 11 {
            self.alloc
        } else if k == 12 {
            self.skip
        } else if k == 13 {
            self.f64v
        } else {
            self.char_at
        }
    }

    fn address(&self, k: usize) -> (r: usize)
        ensures
            r == self.at(k as int),
    {
        if k == 0 {
            self.obj_get
        } else if k == 1 {
            self.arr_len
        } else if k == 2 {
            self.arr_get
        } else if k == 3 {
            self.as_u64
        } else if k == 4 {
            self.as_i64
        } else if k == 5 {
            self.as_f64
        } else if k == 6 {
            self.as_bool
        } else if k == 7 {
            self.as_char
        } else if k == 8 {
            self.str_ptr
        } else if k == 9 {
            self.str_len
        } else if k == 10 {
            self.dup
        } else if k == 11 {
            self.alloc
        } else if k == 12 {
            self.skip
        } else if k == 13 {
            self.f64v
        } else {
            self.char_at
        }
    }
}

fn name_of_hook(k: usize) -> (r: &'static str)
    ensures
        r@ == hook_name(k as int),
{
    if k == 0 {
        "rt_obj_get"
    } else if k == 1 {
        "rt_arr_len"
    } else if k == 2 {
        "rt_arr_get"
    } else if k == 3 {
        "rt_as_u64"
    } else if k == 4 {
        "rt_as_i64"
    } else if k == 5 {
        "rt_as_f64"
    } else if k == 6 {
        "rt_as_bool"
    } else if k == 7 {
        "rt_as_char"
    } else if k == 8 {
        "rt_str_ptr"
    } else if k == 9 {
        "rt_str_len"
    } else if k == 10 {
        "rt_dup"
    } else if k == 11 {
        "rt_alloc"
    } else if k == 12 {
        "rt_skip"
    } else if k == 13 {
        "rt_f64v"
    } else {
        "rt_char_at"
    }
}

fn params_of_hook(k: usize) -> (r: usize)
    ensures
        r == hook_params(k as int),
{
    if k == 0 {
        3
    } else if k == 1 {
        1
    } else if k == 2 {
        2
    } else if k == 3 {
        1
    } else if k == 4 {
        1
    } else if k == 5 {
        1
    } else if k == 6 {
        1
    } else if k == 7 {
        1
    } else if k == 8 {
        1
    } else if k == 9 {
        1
    } else if k == 10 {
        2
    } else if k == 11 {
        2
    } else if k == 12 {
        2
    } else if k == 13 {
        3
    } else {
        2
    }
}

fn ret_of_hook(k: usize) -> (r: Ret)
    ensures
        r == hook_ret(k as int),
{
    if k == 5 {
        Ret::Float
    } else {
        Ret::Int
    }
}

/// No two of them have one name, and all names begin alike.
proof fn lemma_hook_names(i: int, k: int)
    requires
        0 <= i < HOOKS,
        0 <= k < HOOKS,
    ensures
        hook_name(i).len() > 0,
        hook_name(i)[0] == 'r',
        i != k ==> hook_name(i) != hook_name(k),
{
    reveal_strlit("rt_obj_get");
    reveal_strlit("rt_arr_len");
    reveal_strlit("rt_arr_get");
    reveal_strlit("rt_as_u64");
    reveal_strlit("rt_as_i64");
    reveal_strlit("rt_as_f64");
    reveal_strlit("rt_as_bool");
    reveal_strlit("rt_as_char");
    reveal_strlit("rt_str_ptr");
    reveal_strlit("rt_str_len");
    reveal_strlit("rt_dup");
    reveal_strlit("rt_alloc");
    reveal_strlit("rt_skip");
    reveal_strlit("rt_f64v");
    reveal_strlit("rt_char_at");
    let a = hook_name(i);
    let b = hook_name(k);
    let _ = (a[0], a[3], a[4], a[6], a[7], b[3], b[4], b[6], b[7]);
}

// ---------------------------------------------------------------------------
// The names of compiled functions.
// ---------------------------------------------------------------------------

/// A decimal digit.
pub open spec fn digit(d: nat) -> char {
    (48 + d) as char
}

/// A number in decimal digits.
pub open spec fn decimal(n: nat) -> Seq<char>
    decreases n,
{
    if n < 10 {
        Seq::empty().push(digit(n))
    } else {
        decimal(n / 10).push(digit(n % 10))
    }
}

proof fn lemma_decimal(a: nat, b: nat)
    requires
        decimal(a) == decimal(b),
    ensures
        a == b,
    decreases a,
{
    assert(decimal(a).last() == digit(a % 10));
    assert(decimal(b).last() == digit(b % 10));
    lemma_decimal_len(a);
    lemma_decimal_len(b);
    if a >= 10 && b >= 10 {
        assert(decimal(a).drop_last() =~= decimal(a / 10));
        assert(decimal(b).drop_last() =~= decimal(b / 10));
        lemma_decimal(a / 10, b / 10);
    }
}

proof fn lemma_decimal_len(n: nat)
    ensures
        decimal(n).len() >= 1,
        n >= 10 ==> decimal(n).len() >= 2,
    decreases n,
{
    if n >= 10 {
        lemma_decimal_len(n / 10);
    }
}

fn digit_text(d: u32) -> (r: &'static str)
    requires
        d < 10,
    ensures
        r@ == Seq::empty().push(digit(d as nat)),
{
    proof {
        reveal_strlit("0");
        reveal_strlit("1");
        reveal_strlit("2");
        reveal_strlit("3");
        reveal_strlit("4");
        reveal_strlit("5");
        reveal_strlit("6");
        reveal_strlit("7");
        reveal_strlit("8");
        reveal_strlit("9");
    }
    let r = if d == 0 {
        "0"
    } else if d == 1 {
        "1"
    } else if d == 2 {
        "2"
    } else if d == 3 {
        "3"
    } else if d == 4 {
        "4"
    } else if d == 5 {
        "5"
    } else if d == 6 {
        "6"
    } else if d == 7 {
        "7"
    } else if d == 8 {
        "8"
    } else {
        "9"
    };
    assert(r@ =~= Seq::empty().push(digit(d as nat)));
    r
}

/// A number in decimal digits.
fn decimal_text(n: u32) -> (r: String)
    ensures
        r@ == decimal(n as nat),
    decreases n,
{
    if n < 10 {
        let r = crate::text::joined("", digit_text(n));
        proof {
            reveal_strlit("");
            assert(r@ =~= decimal(n as nat));
        }
        r
    } else {
        let r = crate::text::joined(&decimal_text(n / 10), digit_text(n % 10));
        assert(r@ =~= decimal(n as nat));
        r
    }
}

/// What a compiled function does.
#[derive(Clone, Copy, PartialEq, Eq, Structural, Debug)]
pub enum Task {
    Bind,
    Parse,
}

/// The name of the n-th compiled function.
pub open spec fn label(task: Task, n: nat) -> Seq<char> {
    match task {
        Task::Bind => "bind_"@ + decimal(n),
        Task::Parse => "parse_"@ + decimal(n),
    }
}

fn label_text(task: Task, n: u32) -> (r: String)
    ensures
        r@ == label(task, n as nat),
{
    let d = decimal_text(n);
    match task {
        Task::Bind => crate::text::joined("bind_", &d),
        Task::Parse => crate::text::joined("parse_", &d),
    }
}

proof fn lemma_label(s: Task, t: Task, a: nat, b: nat)
    ensures
        label(s, a).len() > 0,
        label(s, a)[0] != 'r',
        label(s, a) == label(t, b) ==> a == b,
{
    reveal_strlit("bind_");
    reveal_strlit("parse_");
    if label(s, a) == label(t, b) {
        assert(label(s, a)[0] == label(t, b)[0]);
        assert(s == t);
        if s == Task::Bind {
            assert(label(s, a).skip(5) =~= decimal(a));
            assert(label(t, b).skip(5) =~= decimal(b));
        } else {
            assert(label(s, a).skip(6) =~= decimal(a));
            assert(label(t, b).skip(6) =~= decimal(b));
        }
        lemma_decimal(a, b);
    }
}

// ---------------------------------------------------------------------------
// The code that has been compiled.
// ---------------------------------------------------------------------------

/// Why nothing was compiled.
#[derive(Clone, Copy, PartialEq, Eq, Structural, Debug)]
pub enum JitError {
    /// The type is not one that code is compiled for.
    Type(CompileError),
    /// There is no code for this machine, or not enough memory for it.
    Module,
    /// There are too many functions.
    Full,
    /// Part of what was compiled before is missing.
    Broken,
}

/// A compiled function: its number, where its code is, and how many bytes of it there
/// are.
#[derive(Clone, Copy, PartialEq, Eq, Structural, Debug)]
pub struct Compiled {
    pub func: u32,
    pub addr: usize,
    pub len: usize,
}

/// Compiled code, and what it refers to.
pub struct Jit {
    module: JITModule,
    shims: Vec<u32>,
    hooks: Hooks,
    /// How many functions have been compiled.
    seq: u32,
    /// The keys that code refers to, and where their bytes are.
    names: Vec<String>,
    texts: Vec<&'static [u8]>,
    addrs: Vec<u64>,
    broken: bool,
}

/// Whether steps are what code says, up to the order of blocks and how blocks and
/// values are numbered.
pub open spec fn spelled(steps: Seq<crate::lower::Step>, l: crate::lower::Links, f: crate::ir::FuncV) -> bool {
    exists|n: crate::lower::Numbers, order: Seq<usize>| #[trigger] spelled_as(steps, l, f, n, order)
}

pub open spec fn spelled_as(
    steps: Seq<crate::lower::Step>,
    l: crate::lower::Links,
    f: crate::ir::FuncV,
    n: crate::lower::Numbers,
    order: Seq<usize>,
) -> bool {
    &&& crate::lower::order_fits(f, order)
    &&& crate::lower::numbers_all(n, f)
    &&& crate::lower::stores_fit(f)
    &&& crate::lower::all_done(n, l, f)
    &&& steps == crate::lower::func_steps(n, l, f, order, order.len())
    &&& steps.len() <= crate::lower::MAX_STEPS
}

/// Whether a name is that of a hook, or of one of the first `n` compiled functions.
pub open spec fn used_name(name: Seq<char>, n: nat) -> bool {
    ||| exists|k: int| 0 <= k < HOOKS && name == #[trigger] hook_name(k)
    ||| exists|task: Task, k: nat| k <= n && name == #[trigger] label(task, k)
}

impl Jit {
    /// The module.
    pub closed spec fn module(&self) -> JITModule {
        self.module
    }

    /// The numbers of the hooks.
    pub closed spec fn shims(&self) -> Seq<u32> {
        self.shims@
    }

    /// The hooks' addresses.
    pub closed spec fn hooks(&self) -> Hooks {
        self.hooks
    }

    /// How many functions have been compiled.
    pub closed spec fn seq(&self) -> u32 {
        self.seq
    }

    /// Whether part of what was compiled is missing.
    pub closed spec fn broken(&self) -> bool {
        self.broken
    }

    /// Whether an address was kept for a key, beside the bytes that were put away for
    /// it. That they are the bytes at that address is for [`place_of`] to say, and no
    /// contract says where bytes are.
    pub closed spec fn key_at(&self, name: Seq<char>, addr: u64) -> bool {
        exists|i: int|
            0 <= i < self.names@.len() && #[trigger] self.names@[i]@ == name && self.texts@[i]@
                == vstd::utf8::encode_utf8(name) && self.addrs@[i] == addr
    }

    /// Whether the hooks are there, under their names and at their addresses.
    pub open spec fn hooked(&self) -> bool {
        &&& self.shims().len() == HOOKS
        &&& forall|k: int|
            0 <= k < HOOKS ==> {
                let id = #[trigger] self.shims()[k];
                &&& crate::lower::declared_of(self.module()).contains_key(id)
                &&& crate::lower::declared_of(self.module())[id] == (crate::lower::Decl {
                    name: hook_name(k),
                    origin: Origin::Import,
                    params: hook_params(k),
                    ret: hook_ret(k),
                })
                &&& crate::lower::known_to(self.module()).contains_key(hook_name(k))
                &&& crate::lower::known_to(self.module())[hook_name(k)] == self.hooks().at(k)
            }
    }

    /// Whether the names of the functions are as they should be.
    pub open spec fn named(&self) -> bool {
        let have = crate::lower::declared_of(self.module());
        &&& have.dom().finite()
        &&& have.len() <= HOOKS + self.seq()
        &&& self.seq() <= MAX_FUNCS - HOOKS
        &&& forall|id: u32| #[trigger] have.contains_key(id) ==> used_name(have[id].name, self.seq() as nat)
        &&& forall|id: u32| #[trigger]
            crate::lower::defined_of(self.module()).contains_key(id) ==> have.contains_key(id)
                && have[id].origin == Origin::Local
    }

    /// Whether each key is there once.
    pub closed spec fn keyed(&self) -> bool {
        &&& self.names@.len() == self.addrs@.len()
        &&& self.names@.len() == self.texts@.len()
        &&& forall|i: int|
            0 <= i < self.names@.len() ==> self.texts@[i]@ == vstd::utf8::encode_utf8(
                (#[trigger] self.names@[i])@,
            )
        &&& forall|i: int, j: int|
            0 <= i < j < self.names@.len() ==> #[trigger] self.names@[i]@ != #[trigger] self.names@[j]@
    }

    /// Whether the compiled code is as it should be.
    pub open spec fn wf(&self) -> bool {
        &&& self.hooked()
        &&& self.named()
        &&& self.keyed()
        &&& !self.broken() ==> complete(self.module())
    }

    /// Whether a function of the module is what code says, with those for the
    /// functions that the code calls.
    pub open spec fn holds(&self, id: u32, ids: Seq<u32>, f: crate::ir::FuncV) -> bool {
        exists|keys: Seq<u64>| #[trigger] self.holds_with(id, ids, f, keys)
    }

    pub open spec fn holds_with(&self, id: u32, ids: Seq<u32>, f: crate::ir::FuncV, keys: Seq<u64>) -> bool {
        &&& keys.len() == f.keys.len()
        &&& forall|k: int| 0 <= k < keys.len() ==> self.key_at(f.keys[k], #[trigger] keys[k])
        &&& crate::lower::defined_of(self.module()).contains_key(id)
        &&& spelled(
            crate::lower::defined_of(self.module())[id],
            (crate::lower::Links { keys, shims: self.shims(), funcs: ids }),
            f,
        )
    }

    /// Whether a function can be run, and is what code says.
    pub open spec fn runs(&self, id: u32, ids: Seq<u32>, f: crate::ir::FuncV) -> bool {
        crate::lower::ready_of(self.module()).contains(id) && self.holds(id, ids, f)
    }

    /// Whether what was compiled, and the keys, are as before, and there may be more.
    pub open spec fn grown(&self, before: &Jit) -> bool {
        &&& self.shims() == before.shims()
        &&& self.hooks() == before.hooks()
        &&& self.seq() >= before.seq()
        &&& crate::lower::defined_of(before.module()).submap_of(crate::lower::defined_of(self.module()))
        &&& code_stays(before.module(), self.module())
        &&& forall|name: Seq<char>, addr: u64| #[trigger]
            before.key_at(name, addr) ==> self.key_at(name, addr)
    }

    /// A key's bytes, which are put away once and stay, and the address that is kept
    /// for them: what [`place_of`] gave for these very bytes.
    pub fn leak_key(&mut self, name: &str) -> (r: (&'static [u8], u64))
        requires
            old(self).keyed(),
        ensures
            final(self).keyed(),
            old(self).wf() ==> final(self).wf(),
            r.0@ == vstd::utf8::encode_utf8(name@),
            forall|addr: u64| #[trigger] old(self).key_at(name@, addr) ==> r.1 == addr,
            final(self).module() == old(self).module(),
            final(self).seq() == old(self).seq(),
            final(self).broken() == old(self).broken(),
            final(self).grown(old(self)),
            final(self).key_at(name@, r.1),
    {
        let mut i: usize = 0;
        while i < self.names.len()
            invariant
                i <= self.names@.len(),
                *self == *old(self),
                self.keyed(),
                forall|j: int| 0 <= j < i ==> #[trigger] self.names@[j]@ != name@,
            decreases self.names@.len() - i,
        {
            if crate::text::str_eq(&self.names[i], name) {
                assert(self.names@[i as int]@ == name@);
                proof {
                    assert forall|addr: u64| #[trigger] self.key_at(name@, addr) implies self.addrs@[i as int] == addr by {
                        self.law_key_put_away_once(name@, self.addrs@[i as int], addr);
                    }
                }
                return (self.texts[i], self.addrs[i]);
            }
            i += 1;
        }
        let text = leak(crate::text::bytes_of(name));
        let addr = place_of(text) as u64;
        let copy = crate::text::joined(name, "");
        let ghost before = *self;
        self.names.push(copy);
        self.texts.push(text);
        self.addrs.push(addr);
        proof {
            reveal_strlit("");
            assert(copy@ =~= name@);
            assert forall|k: Seq<char>, a: u64| #[trigger] before.key_at(k, a) implies self.key_at(k, a) by {
                let j = choose|j: int|
                    0 <= j < before.names@.len() && #[trigger] before.names@[j]@ == k && before.addrs@[j] == a;
                assert(self.names@[j]@ == k && self.addrs@[j] == a);
            }
            let n = before.names@.len() as int;
            assert forall|a: u64| !#[trigger] before.key_at(name@, a) by {}
            assert(self.names@[n]@ == name@ && self.addrs@[n] == addr);
            assert(self.texts@[n]@ == vstd::utf8::encode_utf8(name@));
            assert forall|i: int| 0 <= i < self.names@.len() implies self.texts@[i]@ == vstd::utf8::encode_utf8(
                (#[trigger] self.names@[i])@,
            ) by {
                if i < n {
                    assert(self.names@[i] == before.names@[i]);
                }
            }
        }
        (text, addr)
    }

    /// One address is kept for a key.
    pub proof fn law_key_put_away_once(&self, name: Seq<char>, a: u64, b: u64)
        requires
            self.keyed(),
            self.key_at(name, a),
            self.key_at(name, b),
        ensures
            a == b,
    {
        let i = choose|i: int|
            0 <= i < self.names@.len() && #[trigger] self.names@[i]@ == name && self.texts@[i]@
                == vstd::utf8::encode_utf8(name) && self.addrs@[i] == a;
        let j = choose|j: int|
            0 <= j < self.names@.len() && #[trigger] self.names@[j]@ == name && self.texts@[j]@
                == vstd::utf8::encode_utf8(name) && self.addrs@[j] == b;
        if i < j {
            assert(self.names@[i]@ != self.names@[j]@);
        } else if j < i {
            assert(self.names@[j]@ != self.names@[i]@);
        }
    }

    /// A key keeps its address, whatever is compiled after.
    pub proof fn law_key_stays(&self, before: &Jit, name: Seq<char>, a: u64, b: u64)
        requires
            self.wf(),
            self.grown(before),
            before.key_at(name, a),
            self.key_at(name, b),
        ensures
            a == b,
    {
        self.law_key_put_away_once(name, a, b);
    }

    /// The addresses that are kept for keys.
    fn intern_all(&mut self, keys: &Vec<String>) -> (r: Vec<u64>)
        requires
            old(self).keyed(),
        ensures
            final(self).keyed(),
            final(self).module() == old(self).module(),
            final(self).seq() == old(self).seq(),
            final(self).broken() == old(self).broken(),
            final(self).grown(old(self)),
            r@.len() == keys@.len(),
            forall|k: int| 0 <= k < keys@.len() ==> final(self).key_at(keys@[k]@, #[trigger] r@[k]),
    {
        let mut out: Vec<u64> = Vec::new();
        let mut i: usize = 0;
        while i < keys.len()
            invariant
                i <= keys@.len(),
                self.keyed(),
                self.module() == old(self).module(),
                self.seq() == old(self).seq(),
                self.broken() == old(self).broken(),
                self.grown(old(self)),
                out@.len() == i,
                forall|k: int| 0 <= k < i ==> self.key_at(keys@[k]@, #[trigger] out@[k]),
            decreases keys@.len() - i,
        {
            let ghost before = *self;
            let ghost had = out@;
            let (_, a) = self.leak_key(&keys[i]);
            out.push(a);
            assert forall|k: int| 0 <= k < i + 1 implies self.key_at(keys@[k]@, #[trigger] out@[k]) by {
                if k < i {
                    assert(out@[k] == had[k]);
                    assert(before.key_at(keys@[k]@, had[k]));
                }
            }
            i += 1;
        }
        out
    }

    /// A compiler with no code yet, for those hooks. It fails where there is no code
    /// for this machine.
    #[verifier::spinoff_prover]
    pub fn new(hooks: Hooks) -> (r: Result<Jit, JitError>)
        ensures
            r matches Err(e) ==> e == JitError::Module,
            r matches Ok(jit) ==> {
                &&& jit.wf()
                &&& !jit.broken()
                &&& jit.hooks() == hooks
                &&& jit.seq() == 0
                &&& crate::lower::defined_of(jit.module()).dom() == Set::<u32>::empty()
            },
    {
        let mut b = match new_jit_builder() {
            Ok(b) => b,
            Err(_) => {
                return Err(JitError::Module);
            },
        };
        let mut k: usize = 0;
        while k < HOOKS
            invariant
                k <= HOOKS,
                forall|i: int|
                    0 <= i < k ==> symbols_of(b).contains_key(#[trigger] hook_name(i)) && symbols_of(b)[hook_name(i)]
                        == hooks.at(i),
            decreases HOOKS - k,
        {
            let ghost before = b;
            symbol(&mut b, name_of_hook(k), hooks.address(k));
            proof {
                assert forall|i: int| 0 <= i < k + 1 implies symbols_of(b).contains_key(#[trigger] hook_name(i))
                    && symbols_of(b)[hook_name(i)] == hooks.at(i) by {
                    lemma_hook_names(i, k as int);
                }
            }
            k += 1;
        }
        let mut module = new_module(b);
        let mut shims: Vec<u32> = Vec::new();
        let mut j: usize = 0;
        assert(crate::lower::declared_of(module).dom().len() == 0);
        while j < HOOKS
            invariant
                j <= HOOKS,
                shims@.len() == j,
                forall|i: int|
                    0 <= i < HOOKS ==> crate::lower::known_to(module).contains_key(#[trigger] hook_name(i))
                        && crate::lower::known_to(module)[hook_name(i)] == hooks.at(i),
                crate::lower::declared_of(module).dom().finite(),
                crate::lower::declared_of(module).len() == j,
                crate::lower::defined_of(module).dom() == Set::<u32>::empty(),
                forall|i: int|
                    0 <= i < j ==> {
                        let id = #[trigger] shims@[i];
                        &&& crate::lower::declared_of(module).contains_key(id)
                        &&& crate::lower::declared_of(module)[id] == (crate::lower::Decl {
                            name: hook_name(i),
                            origin: Origin::Import,
                            params: hook_params(i),
                            ret: hook_ret(i),
                        })
                    },
                forall|id: u32| #[trigger]
                    crate::lower::declared_of(module).contains_key(id) ==> exists|i: int|
                        0 <= i < j && crate::lower::declared_of(module)[id].name == #[trigger] hook_name(i),
            decreases HOOKS - j,
        {
            let ghost had = crate::lower::declared_of(module);
            proof {
                if takes_name(module, hook_name(j as int)) {
                    let id = choose|id: u32| #[trigger]
                        had.contains_key(id) && had[id].name == hook_name(j as int);
                    let i = choose|i: int| 0 <= i < j && had[id].name == #[trigger] hook_name(i);
                    lemma_hook_names(i, j as int);
                }
            }
            let id = declare_function(
                &mut module,
                name_of_hook(j),
                Origin::Import,
                params_of_hook(j),
                ret_of_hook(j),
            );
            shims.push(id);
            proof {
                let have = crate::lower::declared_of(module);
                assert(have.dom() =~= had.dom().insert(id));
                assert forall|x: u32| #[trigger] have.contains_key(x) implies exists|i: int|
                    0 <= i < j + 1 && have[x].name == #[trigger] hook_name(i) by {
                    if x == id {
                        assert(have[x].name == hook_name(j as int));
                    } else {
                        assert(had.contains_key(x));
                        let i = choose|i: int| 0 <= i < j && had[x].name == #[trigger] hook_name(i);
                        assert(have[x].name == hook_name(i));
                    }
                }
            }
            j += 1;
        }
        let jit = Jit { module, shims, hooks, seq: 0, names: Vec::new(), texts: Vec::new(), addrs: Vec::new(), broken: false };
        proof {
            assert forall|k: int| 0 <= k < HOOKS implies crate::lower::known_to(jit.module()).contains_key(
                #[trigger] hook_name(k),
            ) by {}
            assert forall|k: int| 0 <= k < HOOKS implies ({
                let id = #[trigger] jit.shims()[k];
                &&& crate::lower::declared_of(jit.module()).contains_key(id)
                &&& crate::lower::known_to(jit.module()).contains_key(hook_name(k))
            }) by {
                let _ = hook_name(k);
            }
        }
        Ok(jit)
    }
}

/// Whether every call in some steps is of one of those functions.
pub open spec fn calls_among(steps: Seq<crate::lower::Step>, shims: Seq<u32>, funcs: Seq<u32>) -> bool {
    forall|k: int|
        0 <= k < steps.len() && (#[trigger] steps[k]) is Call ==> shims.contains(steps[k]->func) || funcs.contains(
            steps[k]->func,
        )
}

proof fn lemma_no_calls(n: crate::lower::Numbers, j: nat, shims: Seq<u32>, funcs: Seq<u32>)
    ensures
        calls_among(crate::lower::openings(n, j), shims, funcs),
    decreases j,
{
    if j > 0 {
        lemma_no_calls(n, (j - 1) as nat, shims, funcs);
        let a = crate::lower::openings(n, (j - 1) as nat);
        let b = crate::lower::opening(n, j - 1);
        assert forall|k: int| 0 <= k < (a + b).len() && (#[trigger] (a + b)[k]) is Call implies shims.contains(
            (a + b)[k]->func,
        ) || funcs.contains((a + b)[k]->func) by {
            if k < a.len() {
                assert((a + b)[k] == a[k]);
            } else {
                assert((a + b)[k] == b[k - a.len()]);
            }
        }
    }
}

/// Handed-over code calls only the functions that it refers to.
proof fn lemma_calls_among(
    n: crate::lower::Numbers,
    l: crate::lower::Links,
    f: crate::ir::FuncV,
    order: Seq<usize>,
    j: nat,
)
    requires
        crate::lower::order_fits(f, order),
        j <= order.len(),
        l.shims.len() == HOOKS,
        forall|i: int, k: int|
            0 <= i < f.blocks.len() && 0 <= k < f.blocks[i].insts.len() ==> refers_in(
                l,
                #[trigger] f.blocks[i].insts[k],
            ),
    ensures
        calls_among(crate::lower::func_steps(n, l, f, order, j), l.shims, l.funcs),
    decreases j,
{
    if j == 0 {
        lemma_no_calls(n, f.blocks.len(), l.shims, l.funcs);
    } else {
        lemma_calls_among(n, l, f, order, (j - 1) as nat);
        let a = crate::lower::func_steps(n, l, f, order, (j - 1) as nat);
        let at = order[j - 1] as int;
        let b = crate::lower::block_steps(n, l, f, at);
        let size = f.blocks[at].insts.len();
        assert forall|k: int| 0 <= k < (a + b).len() && (#[trigger] (a + b)[k]) is Call implies l.shims.contains(
            (a + b)[k]->func,
        ) || l.funcs.contains((a + b)[k]->func) by {
            if k < a.len() {
                assert((a + b)[k] == a[k]);
            } else {
                let i = k - a.len();
                assert((a + b)[k] == b[i]);
                if i == 0 {
                } else if i <= size {
                    let inst = f.blocks[at].insts[i - 1];
                    let r = crate::lower::number_at(n, at, i - 1);
                    assert(b[i] == crate::lower::step(n, l, r, inst));
                    lemma_call_step(n, l, r, inst);
                } else {
                    assert(b[i] == crate::lower::end_step(n, f.blocks[at].term->0));
                    reveal(crate::lower::end_step);
                }
            }
        }
    }
}

/// Whether an instruction that calls a compiled function calls one that is there.
pub open spec fn refers_in(l: crate::lower::Links, i: crate::ir::Inst) -> bool {
    i matches crate::ir::Inst::CallFn { func, .. } ==> func < l.funcs.len()
}

proof fn lemma_call_step(n: crate::lower::Numbers, l: crate::lower::Links, r: u32, i: crate::ir::Inst)
    requires
        l.shims.len() == HOOKS,
        refers_in(l, i),
    ensures
        crate::lower::step(n, l, r, i) is Call ==> l.shims.contains(crate::lower::step(n, l, r, i)->func)
            || l.funcs.contains(crate::lower::step(n, l, r, i)->func),
{
    reveal(crate::lower::step);
    match i {
        crate::ir::Inst::Call(shim, args) => {
            assert(l.shims[crate::lower::place(shim)] == crate::lower::step(n, l, r, i)->func);
        },
        crate::ir::Inst::CallFn { func, dst, cur, end, sc } => {
            assert(l.funcs[func as int] == crate::lower::step(n, l, r, i)->func);
        },
        _ => {},
    }
}

/// Code that can be handed over calls only compiled functions that are there.
proof fn lemma_refers_in(l: crate::lower::Links, f: crate::ir::FuncV, order: Seq<usize>)
    requires
        crate::lower::can_lower(l, f, order),
    ensures
        forall|i: int, k: int|
            0 <= i < f.blocks.len() && 0 <= k < f.blocks[i].insts.len() ==> refers_in(
                l,
                #[trigger] f.blocks[i].insts[k],
            ),
{
    assert forall|i: int, k: int| 0 <= i < f.blocks.len() && 0 <= k < f.blocks[i].insts.len() implies refers_in(
        l,
        #[trigger] f.blocks[i].insts[k],
    ) by {
        assert(crate::lower::comes_up(order, i));
        let j = choose|j: int| 0 <= j < order.len() && #[trigger] order[j] == i;
        let n = crate::lower::after_blocks(f, order, j as nat);
        assert(crate::lower::block_fits(n, l, f, order[j] as int));
        assert(crate::lower::can_step(crate::lower::after_part(n, f, i, k as nat), l, f.blocks[i].insts[k]));
        reveal(crate::lower::can_step);
    }
}

/// Handed-over code ends its blocks.
proof fn lemma_has_block(n: crate::lower::Numbers, l: crate::lower::Links, f: crate::ir::FuncV, order: Seq<usize>)
    requires
        crate::lower::can_lower(l, f, order),
    ensures
        has_block(crate::lower::func_steps(n, l, f, order, order.len())),
{
    let steps = crate::lower::func_steps(n, l, f, order, order.len());
    let at = order[order.len() - 1] as int;
    let b = crate::lower::block_steps(n, l, f, at);
    assert(steps[steps.len() - 1] == b[b.len() - 1]);
    reveal(crate::lower::end_step);
    assert(crate::lower::ends_block(b[b.len() - 1]));
}

impl Jit {
    /// Whether the functions and keys are as they should be.
    pub open spec fn sound(&self) -> bool {
        self.hooked() && self.named() && self.keyed()
    }

    /// Where only the code in the module has changed, the rest is as before.
    proof fn lemma_rest(&self, before: &Jit)
        requires
            before.sound(),
            self.shims == before.shims,
            self.hooks == before.hooks,
            self.seq == before.seq,
            self.names == before.names,
            self.addrs == before.addrs,
            self.texts == before.texts,
            code_stays(before.module, self.module),
            crate::lower::declared_of(self.module) == crate::lower::declared_of(before.module),
            crate::lower::known_to(before.module).submap_of(crate::lower::known_to(self.module)),
            forall|id: u32| #[trigger]
                crate::lower::defined_of(self.module).contains_key(id) ==> crate::lower::defined_of(
                    before.module,
                ).contains_key(id) || (crate::lower::declared_of(before.module).contains_key(id)
                    && crate::lower::declared_of(before.module)[id].origin == Origin::Local),
            crate::lower::defined_of(before.module).submap_of(crate::lower::defined_of(self.module)),
        ensures
            self.sound(),
            self.grown(before),
    {
        assert forall|k: int| 0 <= k < HOOKS implies ({
            let id = #[trigger] self.shims()[k];
            &&& crate::lower::declared_of(self.module()).contains_key(id)
            &&& crate::lower::declared_of(self.module())[id] == (crate::lower::Decl {
                name: hook_name(k),
                origin: Origin::Import,
                params: hook_params(k),
                ret: hook_ret(k),
            })
            &&& crate::lower::known_to(self.module()).contains_key(hook_name(k))
            &&& crate::lower::known_to(self.module())[hook_name(k)] == self.hooks().at(k)
        }) by {
            let _ = before.shims()[k];
            assert(crate::lower::known_to(before.module).contains_key(hook_name(k)));
        }
        assert forall|name: Seq<char>, addr: u64| #[trigger] before.key_at(name, addr) implies self.key_at(
            name,
            addr,
        ) by {
            let i = choose|i: int|
                0 <= i < before.names@.len() && #[trigger] before.names@[i]@ == name && before.addrs@[i] == addr;
            assert(self.names@[i]@ == name);
        }
        assert forall|id: u32| #[trigger]
            crate::lower::defined_of(self.module()).contains_key(id) implies crate::lower::declared_of(
            self.module(),
        ).contains_key(id) && crate::lower::declared_of(self.module())[id].origin == Origin::Local by {
            if crate::lower::defined_of(before.module()).contains_key(id) {
            }
        }
    }

    /// Gives a function its code.
    #[verifier::spinoff_prover]
    fn put(&mut self, f: &FuncIr, id: u32, ids: &Vec<u32>, params: usize, ret: Ret) -> (r: Result<usize, JitError>)
        requires
            old(self).sound(),
            crate::lower::declared_of(old(self).module()).contains_key(id),
            crate::lower::declared_of(old(self).module())[id].origin == Origin::Local,
            !crate::lower::defined_of(old(self).module()).contains_key(id),
            crate::lower::declared_of(old(self).module())[id].params == params,
            crate::lower::declared_of(old(self).module())[id].ret == ret,
            crate::lower::fit(f@, ids@.len()),
            crate::lower::stores_fit(f@),
            forall|k: int|
                0 <= k < ids@.len() ==> crate::lower::callable(
                    crate::lower::declared_of(old(self).module()),
                    #[trigger] ids@[k],
                ),
        ensures
            final(self).sound(),
            final(self).seq() == old(self).seq(),
            final(self).broken() == old(self).broken(),
            final(self).grown(old(self)),
            crate::lower::declared_of(final(self).module()) == crate::lower::declared_of(old(self).module()),
            crate::lower::known_to(final(self).module()) == crate::lower::known_to(old(self).module()),
            crate::lower::ready_of(final(self).module()) == crate::lower::ready_of(old(self).module()),
            r matches Ok(n) ==> {
                &&& n == crate::lower::code_len(final(self).module())[id]
                &&& final(self).holds(id, ids@, f@)
                &&& crate::lower::defined_of(final(self).module()).dom() == crate::lower::defined_of(
                    old(self).module(),
                ).dom().insert(id)
                &&& calls_among(
                    crate::lower::defined_of(final(self).module())[id],
                    final(self).shims(),
                    ids@,
                )
            },
            r is Err ==> crate::lower::defined_of(final(self).module()) == crate::lower::defined_of(
                old(self).module(),
            ),
            r matches Err(e) ==> e == JitError::Module,
    {
        let keys = self.intern_all(&f.keys);
        let ghost mid = *self;
        let refs = Refs { keys: &keys, shims: &self.shims, funcs: ids };
        let ghost l = refs.links();
        proof {
            crate::lower::lemma_fit(l, f@);
            assert forall|k: int| 0 <= k < self.shims@.len() implies crate::lower::callable(
                crate::lower::declared_of(self.module),
                #[trigger] self.shims@[k],
            ) by {
                assert(self.shims()[k] == self.shims@[k]);
            }
        }
        match crate::lower::lower(&mut self.module, &refs, f, params, ret) {
            None => {
                proof {
                    assert(false);
                }
                Err(JitError::Module)
            },
            Some(g) => {
                let Lowered { func, numbers: Ghost(n) } = g;
                proof {
                    lemma_has_block(n, l, f@, f.order@);
                }
                match define_function(&mut self.module, id, func) {
                    Err(_) => {
                        proof {
                            self.lemma_rest(&mid);
                        }
                        Err(JitError::Module)
                    },
                    Ok(len) => {
                        proof {
                            self.lemma_rest(&mid);
                            let steps = crate::lower::body_of(func);
                            lemma_refers_in(l, f@, f.order@);
                            lemma_calls_among(n, l, f@, f.order@, f.order@.len());
                            assert(spelled_as(steps, l, f@, n, f.order@));
                            assert forall|k: int| 0 <= k < keys@.len() implies self.key_at(
                                f@.keys[k],
                                #[trigger] keys@[k],
                            ) by {
                                assert(mid.key_at(f.keys@[k]@, keys@[k]));
                            }
                            assert(self.holds_with(id, ids@, f@, keys@));
                        }
                        Ok(len)
                    },
                }
            },
        }
    }
}

impl Jit {
    /// What a function says stays as it is when more is compiled.
    proof fn lemma_holds(&self, before: &Jit, id: u32, ids: Seq<u32>, f: crate::ir::FuncV)
        requires
            self.grown(before),
            before.holds(id, ids, f),
        ensures
            self.holds(id, ids, f),
            crate::lower::defined_of(self.module())[id] == crate::lower::defined_of(before.module())[id],
    {
        let keys = choose|keys: Seq<u64>| #[trigger] before.holds_with(id, ids, f, keys);
        assert forall|k: int| 0 <= k < keys.len() implies self.key_at(f.keys[k], #[trigger] keys[k]) by {
            assert(before.key_at(f.keys[k], keys[k]));
        }
        assert(crate::lower::defined_of(self.module()).contains_key(id));
        assert(self.holds_with(id, ids, f, keys));
    }

    proof fn lemma_grown(&self, mid: &Jit, before: &Jit)
        requires
            self.grown(mid),
            mid.grown(before),
        ensures
            self.grown(before),
    {
        assert forall|id: u32| #[trigger]
            crate::lower::defined_of(before.module()).contains_key(id) implies crate::lower::code_at(
            self.module(),
        )[id] == crate::lower::code_at(before.module())[id] && crate::lower::code_len(self.module())[id]
            == crate::lower::code_len(before.module())[id] by {
            assert(crate::lower::defined_of(before.module()).dom().contains(id));
            assert(crate::lower::defined_of(mid.module()).dom().contains(id));
            assert(crate::lower::defined_of(mid.module()).contains_key(id));
        }
        let a = crate::lower::defined_of(before.module());
        let b = crate::lower::defined_of(mid.module());
        let c = crate::lower::defined_of(self.module());
        assert(a.submap_of(c)) by {
            assert forall|id: u32| #[trigger] a.dom().contains(id) implies c.dom().contains(id) && a[id] == c[id] by {
                assert(b.dom().contains(id));
                assert(c.dom().contains(id));
            }
        }
        assert forall|name: Seq<char>, addr: u64| #[trigger] before.key_at(name, addr) implies self.key_at(
            name,
            addr,
        ) by {
            assert(mid.key_at(name, addr));
        }
    }

    /// Where only functions without code have been added, calls lead where they did.
    proof fn lemma_complete(&self, before: &Jit)
        requires
            complete(before.module),
            crate::lower::defined_of(self.module) == crate::lower::defined_of(before.module),
            crate::lower::declared_of(before.module).submap_of(crate::lower::declared_of(self.module)),
            crate::lower::known_to(before.module).submap_of(crate::lower::known_to(self.module)),
        ensures
            complete(self.module),
    {
        assert forall|id: u32| #[trigger]
            crate::lower::defined_of(self.module).contains_key(id) implies calls_lead(
            self.module,
            crate::lower::defined_of(self.module)[id],
        ) by {
            let steps = crate::lower::defined_of(self.module)[id];
            assert(calls_lead(before.module, steps));
            assert forall|k: int| 0 <= k < steps.len() && (#[trigger] steps[k]) is Call implies leads_somewhere(
                self.module,
                steps[k]->func,
            ) by {
                let func = steps[k]->func;
                assert(leads_somewhere(before.module, func));
                if !crate::lower::defined_of(before.module).contains_key(func) {
                    let had = crate::lower::declared_of(before.module);
                    let have = crate::lower::declared_of(self.module);
                    assert(had.dom().contains(func));
                    assert(have.dom().contains(func) && have[func] == had[func]);
                    assert(crate::lower::known_to(before.module).dom().contains(had[func].name));
                    assert(crate::lower::known_to(self.module).dom().contains(had[func].name));
                }
            }
        }
    }

    /// A new function, without code.
    fn announce(&mut self, task: Task, params: usize, ret: Ret) -> (r: u32)
        requires
            old(self).sound(),
            old(self).seq() < MAX_FUNCS - HOOKS,
        ensures
            final(self).sound(),
            final(self).seq() == old(self).seq() + 1,
            final(self).broken() == old(self).broken(),
            final(self).grown(old(self)),
            !crate::lower::declared_of(old(self).module()).contains_key(r),
            crate::lower::declared_of(final(self).module()) == crate::lower::declared_of(
                old(self).module(),
            ).insert(
                r,
                (crate::lower::Decl {
                    name: label(task, final(self).seq() as nat),
                    origin: Origin::Local,
                    params: params as nat,
                    ret,
                }),
            ),
            crate::lower::defined_of(final(self).module()) == crate::lower::defined_of(old(self).module()),
            crate::lower::ready_of(final(self).module()) == crate::lower::ready_of(old(self).module()),
            crate::lower::known_to(final(self).module()) == crate::lower::known_to(old(self).module()),
    {
        let ghost before = *self;
        self.seq = self.seq + 1;
        let name = label_text(task, self.seq);
        proof {
            let have = crate::lower::declared_of(before.module);
            if takes_name(self.module, name@) {
                let id = choose|id: u32| #[trigger] have.contains_key(id) && have[id].name == name@;
                assert(used_name(have[id].name, before.seq as nat));
                lemma_label(task, task, self.seq as nat, self.seq as nat);
                if exists|k: int| 0 <= k < HOOKS && name@ == #[trigger] hook_name(k) {
                    let k = choose|k: int| 0 <= k < HOOKS && name@ == #[trigger] hook_name(k);
                    lemma_hook_names(k, k);
                } else {
                    let (t, k) = choose|t: Task, k: nat| k <= before.seq && name@ == #[trigger] label(t, k);
                    lemma_label(task, t, self.seq as nat, k);
                }
            }
        }
        let id = declare_function(&mut self.module, &name, Origin::Local, params, ret);
        proof {
            let had = crate::lower::declared_of(before.module);
            let have = crate::lower::declared_of(self.module);
            assert(have.dom() =~= had.dom().insert(id));
            assert forall|x: u32| #[trigger] have.contains_key(x) implies used_name(have[x].name, self.seq as nat) by {
                if x == id {
                    assert(have[x].name == label(task, self.seq as nat));
                } else {
                    assert(had.contains_key(x));
                    assert(used_name(had[x].name, before.seq as nat));
                    if !(exists|k: int| 0 <= k < HOOKS && had[x].name == #[trigger] hook_name(k)) {
                        let (t, k) = choose|t: Task, k: nat|
                            k <= before.seq && had[x].name == #[trigger] label(t, k);
                        assert(have[x].name == label(t, k) && k <= self.seq);
                    }
                }
            }
            assert forall|k: int| 0 <= k < HOOKS implies have.contains_key(#[trigger] self.shims()[k])
                && have[self.shims()[k]] == had[self.shims()[k]] by {
                assert(had.contains_key(before.shims()[k]));
            }
            assert forall|k: int| 0 <= k < HOOKS implies #[trigger] self.shims()[k] == before.shims()[k] by {}
            assert forall|n: Seq<char>, addr: u64| #[trigger] before.key_at(n, addr) implies self.key_at(
                n,
                addr,
            ) by {
                let i = choose|i: int|
                    0 <= i < before.names@.len() && #[trigger] before.names@[i]@ == n && before.addrs@[i] == addr;
                assert(self.names@[i]@ == n);
            }
        }
        id
    }
}

impl Jit {
    /// Whether every function of a list is what code says.
    pub open spec fn all_hold(&self, ids: Seq<u32>, m: Seq<crate::ir::FuncV>, n: int) -> bool {
        forall|k: int| 0 <= k < n ==> self.holds(#[trigger] ids[k], ids, m[k])
    }

    /// Compiles a function, and those that it calls.
    #[verifier::spinoff_prover]
    #[verifier::rlimit(60)]
    fn install(&mut self, task: Task, main: &FuncIr, funcs: &Vec<FuncIr>, params: usize) -> (r: Result<
        Compiled,
        JitError,
    >)
        requires
            old(self).wf(),
            all_fit(main, funcs@),
        ensures
            final(self).wf(),
            final(self).grown(old(self)),
            old(self).broken() ==> r == Err::<Compiled, JitError>(JitError::Broken),
            !old(self).broken() && funcs@.len() + old(self).seq() >= MAX_FUNCS - HOOKS ==> r == Err::<
                Compiled,
                JitError,
            >(JitError::Full),
            r matches Err(e) ==> !(e is Type),
            r matches Err(JitError::Broken) ==> old(self).broken(),
            r matches Err(JitError::Full) ==> !old(self).broken() && funcs@.len() + old(self).seq() >= MAX_FUNCS
                - HOOKS,
            r matches Ok(c) ==> {
                &&& !final(self).broken()
                &&& final(self).offers(c.func, main@, crate::parser::funcs_view(funcs@))
                &&& c.addr == crate::lower::code_at(final(self).module())[c.func]
                &&& c.len == crate::lower::code_len(final(self).module())[c.func]
            },
    {
        if self.broken {
            return Err(JitError::Broken);
        }
        if funcs.len() >= (MAX_FUNCS - 15 - self.seq) as usize {
            return Err(JitError::Full);
        }
        let ghost start = *self;
        let ghost m = crate::parser::funcs_view(funcs@);
        let id = self.announce(task, params, Ret::Nothing);
        let mut ids: Vec<u32> = Vec::new();
        let mut k: usize = 0;
        while k < funcs.len()
            invariant
                k <= funcs@.len(),
                ids@.len() == k,
                self.sound(),
                !self.broken(),
                self.seq() == start.seq() + 1 + k,
                funcs@.len() + start.seq() < MAX_FUNCS - HOOKS,
                self.grown(&start),
                crate::lower::declared_of(start.module()).submap_of(crate::lower::declared_of(self.module())),
                crate::lower::defined_of(self.module()) == crate::lower::defined_of(start.module()),
                crate::lower::known_to(self.module()) == crate::lower::known_to(start.module()),
                local_in(*self, id),
                announced(*self, id, params as nat, Ret::Nothing),
                forall|i: int| 0 <= i < k ==> local_in(*self, #[trigger] ids@[i]) && ids@[i] != id,
                forall|i: int| 0 <= i < k ==> announced(*self, #[trigger] ids@[i], 4, Ret::Int),
                forall|i: int|
                    0 <= i < k ==> crate::lower::callable(
                        crate::lower::declared_of(self.module()),
                        #[trigger] ids@[i],
                    ),
                forall|i: int, j: int| 0 <= i < j < k ==> #[trigger] ids@[i] != #[trigger] ids@[j],
            decreases funcs@.len() - k,
        {
            let ghost before = *self;
            let ghost had = ids@;
            let next = self.announce(Task::Parse, 4, Ret::Int);
            ids.push(next);
            proof {
                assert(crate::lower::declared_of(before.module()).contains_key(id));
                assert forall|i: int| 0 <= i < k + 1 implies local_in(*self, #[trigger] ids@[i]) && ids@[i] != id
                    && announced(*self, ids@[i], 4, Ret::Int) && crate::lower::callable(
                    crate::lower::declared_of(self.module()),
                    ids@[i],
                ) by {
                    if i < k {
                        assert(ids@[i] == had[i]);
                        assert(local_in(before, had[i]));
                        assert(announced(before, had[i], 4, Ret::Int));
                        assert(crate::lower::callable(crate::lower::declared_of(before.module()), had[i]));
                    }
                }
                assert forall|i: int, j: int| 0 <= i < j < k + 1 implies #[trigger] ids@[i] != #[trigger] ids@[j] by {
                    assert(local_in(before, had[i]));
                    if j < k {
                        assert(ids@[j] == had[j]);
                    }
                }
            }
            k += 1;
        }
        let ghost mid = *self;
        proof {
            self.lemma_complete(&start);
        }
        self.broken = true;
        let mut j: usize = 0;
        proof {
            self.lemma_rest(&mid);
        }
        while j < funcs.len()
            invariant
                j <= funcs@.len(),
                m == crate::parser::funcs_view(funcs@),
                ids@.len() == funcs@.len(),
                self.sound(),
                self.broken(),
                self.grown(&mid),
                mid.grown(&start),
                start == *old(self),
                !start.broken(),
                funcs@.len() + start.seq() < MAX_FUNCS - HOOKS,
                complete(mid.module()),
                crate::lower::declared_of(self.module()) == crate::lower::declared_of(mid.module()),
                crate::lower::known_to(self.module()) == crate::lower::known_to(mid.module()),
                local_in(mid, id),
                announced(mid, id, params as nat, Ret::Nothing),
                forall|i: int| 0 <= i < ids@.len() ==> announced(mid, #[trigger] ids@[i], 4, Ret::Int),
                !crate::lower::defined_of(self.module()).contains_key(id),
                forall|i: int| 0 <= i < ids@.len() ==> local_in(mid, #[trigger] ids@[i]) && ids@[i] != id,
                forall|i: int|
                    0 <= i < ids@.len() ==> crate::lower::callable(
                        crate::lower::declared_of(self.module()),
                        #[trigger] ids@[i],
                    ),
                forall|i: int, k: int| 0 <= i < k < ids@.len() ==> #[trigger] ids@[i] != #[trigger] ids@[k],
                forall|i: int|
                    j <= i < ids@.len() ==> !crate::lower::defined_of(self.module()).contains_key(
                        #[trigger] ids@[i],
                    ),
                self.all_hold(ids@, m, j as int),
                all_fit(main, funcs@),
                forall|i: int|
                    0 <= i < j ==> calls_among(
                        crate::lower::defined_of(self.module())[#[trigger] ids@[i]],
                        self.shims(),
                        ids@,
                    ),
                forall|x: u32| #[trigger]
                    crate::lower::defined_of(self.module()).contains_key(x) ==> crate::lower::defined_of(
                        mid.module(),
                    ).contains_key(x) || ids@.contains(x),
                j == 0 ==> crate::lower::defined_of(self.module()) == crate::lower::defined_of(mid.module()),
            decreases funcs@.len() - j,
        {
            let ghost before = *self;
            let r = self.put(&funcs[j], ids[j], &ids, 4, Ret::Int);
            proof {
                self.lemma_grown(&before, &mid);
            }
            if let Err(e) = r {
                if j == 0 {
                    let ghost late = *self;
                    self.broken = false;
                    proof {
                        self.lemma_complete(&mid);
                        self.lemma_rest(&late);
                    }
                }
                proof {
                    self.lemma_grown(&mid, &start);
                }
                return Err(e);
            }
            proof {
                assert(m[j as int] == funcs@[j as int]@);
                assert forall|i: int| 0 <= i < j + 1 implies self.holds(#[trigger] ids@[i], ids@, m[i])
                    && calls_among(
                    crate::lower::defined_of(self.module())[ids@[i]],
                    self.shims(),
                    ids@,
                ) by {
                    if i < j {
                        assert(before.holds(ids@[i], ids@, m[i]));
                        self.lemma_holds(&before, ids@[i], ids@, m[i]);
                    }
                }
                assert(ids@.contains(ids@[j as int]));
            }
            j += 1;
        }
        let ghost late = *self;
        let r = self.put(main, id, &ids, params, Ret::Nothing);
        proof {
            self.lemma_grown(&late, &mid);
        }
        let len: usize = match r {
            Ok(len) => len,
            Err(e) => {
                if funcs.len() == 0 {
                    let ghost then = *self;
                    self.broken = false;
                    proof {
                        self.lemma_complete(&mid);
                        self.lemma_rest(&then);
                    }
                }
                proof {
                    self.lemma_grown(&mid, &start);
                }
                return Err(e);
            },
        };
        proof {
            assert forall|i: int| 0 <= i < ids@.len() implies self.holds(#[trigger] ids@[i], ids@, m[i])
                && calls_among(crate::lower::defined_of(self.module())[ids@[i]], self.shims(), ids@) by {
                assert(late.holds(ids@[i], ids@, m[i]));
                self.lemma_holds(&late, ids@[i], ids@, m[i]);
            }
            self.lemma_all_lead(&mid, id, ids@);
        }
        let ghost full = *self;
        let done = finalize_definitions(&mut self.module);
        proof {
            self.lemma_rest(&full);
            self.lemma_grown(&full, &mid);
        }
        if done.is_err() {
            proof {
                self.lemma_grown(&mid, &start);
            }
            return Err(JitError::Module);
        }
        let ghost then = *self;
        self.broken = false;
        let addr = address_of(&self.module, id);
        proof {
            self.lemma_rest(&then);
            self.lemma_complete(&full);
            assert(self.grown(&full));
            self.lemma_grown(&full, &mid);
            self.lemma_holds(&full, id, ids@, main@);
            assert forall|i: int| 0 <= i < ids@.len() implies self.runs(#[trigger] ids@[i], ids@, m[i]) by {
                self.lemma_holds(&full, ids@[i], ids@, m[i]);
                assert(crate::lower::defined_of(self.module()).contains_key(ids@[i]));
            }
            assert(self.runs_with(id, ids@, main@, m));
            assert(self.offers(id, main@, m));
            assert(self.grown(&mid));
            self.lemma_grown(&mid, &start);
        }
        Ok(Compiled { func: id, addr, len })
    }

    /// Whether a function can be run and is what code says, as are those that it
    /// calls.
    pub open spec fn offers(&self, id: u32, f: crate::ir::FuncV, m: Seq<crate::ir::FuncV>) -> bool {
        exists|ids: Seq<u32>| #[trigger] self.runs_with(id, ids, f, m)
    }

    /// Whether a function and those that it calls, by their numbers, can be run, and
    /// are what code says.
    pub open spec fn runs_with(
        &self,
        id: u32,
        ids: Seq<u32>,
        f: crate::ir::FuncV,
        m: Seq<crate::ir::FuncV>,
    ) -> bool {
        &&& self.runs(id, ids, f)
        &&& ids.len() == m.len()
        &&& forall|i: int, j: int| 0 <= i < j < ids.len() ==> #[trigger] ids[i] != #[trigger] ids[j]
        &&& forall|k: int| 0 <= k < ids.len() ==> #[trigger] ids[k] != id
        &&& forall|k: int| 0 <= k < ids.len() ==> self.runs(#[trigger] ids[k], ids, m[k])
    }

    /// With the code of new functions, which call only hooks and one another, calls
    /// lead to code again.
    proof fn lemma_all_lead(&self, mid: &Jit, id: u32, ids: Seq<u32>)
        requires
            complete(mid.module()),
            self.sound(),
            crate::lower::declared_of(self.module()) == crate::lower::declared_of(mid.module()),
            crate::lower::known_to(self.module()) == crate::lower::known_to(mid.module()),
            crate::lower::defined_of(mid.module()).submap_of(crate::lower::defined_of(self.module())),
            forall|x: u32| #[trigger]
                crate::lower::defined_of(self.module()).contains_key(x) ==> crate::lower::defined_of(
                    mid.module(),
                ).contains_key(x) || ids.contains(x) || x == id,
            forall|i: int|
                0 <= i < ids.len() ==> crate::lower::defined_of(self.module()).contains_key(#[trigger] ids[i])
                    && calls_among(crate::lower::defined_of(self.module())[ids[i]], self.shims(), ids),
            calls_among(crate::lower::defined_of(self.module())[id], self.shims(), ids),
        ensures
            complete(self.module()),
    {
        assert forall|x: u32| #[trigger]
            crate::lower::defined_of(self.module()).contains_key(x) implies calls_lead(
            self.module(),
            crate::lower::defined_of(self.module())[x],
        ) by {
            let steps = crate::lower::defined_of(self.module())[x];
            assert forall|k: int| 0 <= k < steps.len() && (#[trigger] steps[k]) is Call implies leads_somewhere(
                self.module(),
                steps[k]->func,
            ) by {
                let func = steps[k]->func;
                if crate::lower::defined_of(mid.module()).contains_key(x) {
                    assert(crate::lower::defined_of(mid.module())[x] == steps);
                    assert(calls_lead(mid.module(), steps));
                    assert(leads_somewhere(mid.module(), func));
                    if crate::lower::defined_of(mid.module()).contains_key(func) {
                        assert(crate::lower::defined_of(self.module()).dom().contains(func));
                    }
                } else {
                    if ids.contains(x) {
                        let i = choose|i: int| 0 <= i < ids.len() && ids[i] == x;
                        assert(calls_among(crate::lower::defined_of(self.module())[ids[i]], self.shims(), ids));
                    }
                    if self.shims().contains(func) {
                        let i = choose|i: int| 0 <= i < self.shims().len() && self.shims()[i] == func;
                        assert(crate::lower::declared_of(self.module()).contains_key(self.shims()[i]));
                    } else {
                        let i = choose|i: int| 0 <= i < ids.len() && ids[i] == func;
                        assert(crate::lower::defined_of(self.module()).contains_key(ids[i]));
                    }
                }
            }
        }
    }
}

/// Whether a function and those that it calls can be handed over.
pub open spec fn all_fit(main: &FuncIr, funcs: Seq<FuncIr>) -> bool {
    &&& crate::lower::fit(main@, funcs.len())
    &&& crate::lower::stores_fit(main@)
    &&& forall|k: int|
        0 <= k < funcs.len() ==> crate::lower::fit((#[trigger] funcs[k])@, funcs.len())
            && crate::lower::stores_fit(funcs[k]@)
}

/// Whether a function takes and gives what is said.
spec fn announced(jit: Jit, id: u32, params: nat, ret: Ret) -> bool {
    crate::lower::declared_of(jit.module())[id].params == params && crate::lower::declared_of(jit.module())[id].ret
        == ret
}

/// Whether a function is one of the module's own, without code yet.
spec fn local_in(jit: Jit, id: u32) -> bool {
    &&& crate::lower::declared_of(jit.module()).contains_key(id)
    &&& crate::lower::declared_of(jit.module())[id].origin == Origin::Local
    &&& !crate::lower::defined_of(jit.module()).contains_key(id)
}

/// Whether a compiled function is a binder for a type: the code of one that, called
/// with a place and a document, writes what laying the document out as the type
/// lists.
pub open spec fn is_binder(jit: Jit, func: u32, ty: crate::plan::TyV) -> bool {
    exists|f: crate::ir::FuncV|
        crate::binder::binds(crate::binder::narrow(ty), f) && f.blocks[0].params == 2 && #[trigger] jit.offers(
            func,
            f,
            Seq::empty(),
        )
}

/// Whether a compiled function is a parser for a type: the code of one that, called
/// with a place and an input, writes what reading the input as the type comes to.
pub open spec fn is_parser(jit: Jit, func: u32, ty: crate::plan::TyV) -> bool {
    exists|f: crate::ir::FuncV, m: Seq<crate::ir::FuncV>|
        crate::parser::parses(ty, m, f) && f.blocks[0].params == 3 && #[trigger] jit.offers(func, f, m)
}

/// Compiles a binder for a type. What was compiled before stays. Where the type is one
/// that code is made for, only cranelift can still turn it down.
pub fn compile(jit: &mut Jit, ty: &Ty) -> (r: Result<Compiled, JitError>)
    requires
        old(jit).wf(),
    ensures
        final(jit).wf(),
        final(jit).grown(old(jit)),
        match crate::binder::turned_down(ty@) {
            Some(e) => r == Err::<Compiled, JitError>(JitError::Type(e)) && *final(jit) == *old(jit),
            None => if old(jit).broken() {
                r == Err::<Compiled, JitError>(JitError::Broken)
            } else if old(jit).seq() >= MAX_FUNCS - HOOKS {
                r == Err::<Compiled, JitError>(JitError::Full)
            } else {
                match r {
                    Ok(c) => {
                        &&& !final(jit).broken()
                        &&& is_binder(*final(jit), c.func, ty@)
                        &&& c.addr == crate::lower::code_at(final(jit).module())[c.func]
                        &&& c.len == crate::lower::code_len(final(jit).module())[c.func]
                    },
                    Err(e) => e == JitError::Module,
                }
            },
        },
{
    let f = match crate::binder::code(ty) {
        Ok(f) => f,
        Err(e) => {
            return Err(JitError::Type(e));
        },
    };
    let none: Vec<FuncIr> = Vec::new();
    assert(none@ =~= Seq::empty());
    let r = jit.install(Task::Bind, &f, &none, 2);
    proof {
        assert(crate::parser::funcs_view(none@) =~= Seq::empty());
    }
    r
}

/// Compiles a parser for a type. What was compiled before stays. Where the type is one
/// that code is made for, only cranelift can still turn it down.
pub fn compile_parser(jit: &mut Jit, ty: &Ty) -> (r: Result<Compiled, JitError>)
    requires
        old(jit).wf(),
    ensures
        final(jit).wf(),
        final(jit).grown(old(jit)),
        match crate::parser::turned_down(ty@) {
            Some(e) => r == Err::<Compiled, JitError>(JitError::Type(e)) && *final(jit) == *old(jit),
            None => if old(jit).broken() {
                r == Err::<Compiled, JitError>(JitError::Broken)
            } else if crate::plan::recs(ty@) + old(jit).seq() >= MAX_FUNCS - HOOKS {
                r == Err::<Compiled, JitError>(JitError::Full)
            } else {
                match r {
                    Ok(c) => {
                        &&& !final(jit).broken()
                        &&& is_parser(*final(jit), c.func, ty@)
                        &&& c.addr == crate::lower::code_at(final(jit).module())[c.func]
                        &&& c.len == crate::lower::code_len(final(jit).module())[c.func]
                    },
                    Err(e) => e == JitError::Module,
                }
            },
        },
{
    let code = match crate::parser::code(ty) {
        Ok(code) => code,
        Err(e) => {
            return Err(JitError::Type(e));
        },
    };
    jit.install(Task::Parse, &code.main, &code.funcs, 3)
}

/// What was compiled stays what it is and where it is, whatever is compiled after it:
/// the code of a function that held some code holds it still.
pub proof fn law_code_stays(before: Jit, after: Jit, func: u32, ids: Seq<u32>, f: crate::ir::FuncV)
    requires
        after.grown(&before),
        before.holds(func, ids, f),
    ensures
        after.holds(func, ids, f),
        crate::lower::code_at(after.module())[func] == crate::lower::code_at(before.module())[func],
        crate::lower::code_len(after.module())[func] == crate::lower::code_len(before.module())[func],
{
    after.lemma_holds(&before, func, ids, f);
}

/// A compiled function is named by what it does and by its number.
pub proof fn law_functions_are_named_by_their_number(n: nat)
    ensures
        label(Task::Bind, n).take(5) == seq!['b', 'i', 'n', 'd', '_'],
        crate::number::dec_value(label(Task::Bind, n).skip(5)) == Some(n),
        label(Task::Parse, n).take(6) == seq!['p', 'a', 'r', 's', 'e', '_'],
        crate::number::dec_value(label(Task::Parse, n).skip(6)) == Some(n),
{
    reveal_strlit("bind_");
    reveal_strlit("parse_");
    crate::number::law_text_is_worth_its_number(n);
    assert(label(Task::Bind, n).take(5) =~= seq!['b', 'i', 'n', 'd', '_']);
    assert(label(Task::Parse, n).take(6) =~= seq!['p', 'a', 'r', 's', 'e', '_']);
    assert(label(Task::Bind, n).skip(5) =~= decimal(n));
    assert(label(Task::Parse, n).skip(6) =~= decimal(n));
}

} // verus!
