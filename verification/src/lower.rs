//! Handing compiled code to cranelift: block by block, one instruction after the
//! other, to the builder of a function.
//!
//! Cranelift counts its values and blocks itself. What [`lower`] hands over is
//! therefore stated up to a numbering: which of cranelift's numbers stands for
//! which block and value.
use crate::ir::{Args, Cc, FuncIr, Inst, Shim, Term, Value};
use cranelift_codegen::ir as clif;
use cranelift_codegen::ir::condcodes::IntCC;
use cranelift_codegen::ir::{types, InstBuilder};
use cranelift_frontend::{FunctionBuilder, FunctionBuilderContext};
use cranelift_jit::JITModule;
use cranelift_module::{FuncId, Module};
use vstd::prelude::*;

verus! {

/// Cranelift's builder of a function.
#[verifier::external_type_specification]
#[verifier::external_body]
pub struct ExFunctionBuilder<'a>(FunctionBuilder<'a>);

/// A function in cranelift's own form.
#[verifier::external_type_specification]
#[verifier::external_body]
pub struct ExFunction(clif::Function);

/// The functions that cranelift knows of, and their machine code.
#[verifier::external_type_specification]
#[verifier::external_body]
pub struct ExJITModule(JITModule);

/// What a function gives back.
#[derive(Clone, Copy, PartialEq, Eq, Structural, Debug)]
pub enum Ret {
    Nothing,
    /// An integer or a pointer, of eight bytes.
    Int,
    /// A floating-point number of eight bytes.
    Float,
}

/// Where a function's code comes from.
#[derive(Clone, Copy, PartialEq, Eq, Structural, Debug)]
pub enum Origin {
    /// From outside the module.
    Import,
    /// From the module itself. It is called by its full address, so that it may lie
    /// anywhere.
    Local,
}

/// What a module knows of a function before it has any code: each takes integers
/// of eight bytes, of some number.
pub struct Decl {
    pub name: Seq<char>,
    pub origin: Origin,
    pub params: nat,
    pub ret: Ret,
}

/// What a builder is given, with values and blocks by cranelift's numbers; `r` is
/// that of the result.
#[verifier::ext_equal]
pub enum Step {
    NewBlock { r: u32 },
    /// A parameter of eight bytes for a block.
    Param { block: u32, r: u32 },
    /// What follows goes to that block.
    Switch { block: u32 },
    Iconst { width: u8, v: i64, r: u32 },
    /// The address of 16 bytes in the function's own frame.
    Scratch { r: u32 },
    Iadd { x: u32, y: u32, r: u32 },
    Isub { x: u32, y: u32, r: u32 },
    Imul { x: u32, y: u32, r: u32 },
    Bor { x: u32, y: u32, r: u32 },
    Band { x: u32, y: u32, r: u32 },
    IaddImm { x: u32, v: i64, r: u32 },
    ImulImm { x: u32, v: i64, r: u32 },
    Ineg { x: u32, r: u32 },
    Test { cc: Cc, x: u32, y: u32, r: u32 },
    TestImm { cc: Cc, x: u32, v: i64, r: u32 },
    Select { c: u32, x: u32, y: u32, r: u32 },
    Uextend { x: u32, r: u32 },
    Ireduce { width: u8, x: u32, r: u32 },
    Load { width: u8, addr: u32, off: i32, r: u32 },
    Store { x: u32, addr: u32, off: i32 },
    /// A call of the function at an address, which gives nothing back.
    CallAt { at: u32, args: Seq<u32> },
    Bitcast { x: u32, r: u32 },
    Fdemote { x: u32, r: u32 },
    Call { func: u32, args: Seq<u32>, r: u32 },
    Jump { to: u32, args: Seq<u32> },
    Brif { c: u32, yes: u32, yes_args: Seq<u32>, no: u32, no_args: Seq<u32> },
    Return { args: Seq<u32> },
}

/// What a builder has been given, in order.
pub uninterp spec fn steps_of(b: FunctionBuilder<'static>) -> Seq<Step>;

/// The numbers of the values that the steps given to a builder have made.
pub uninterp spec fn values_of(b: FunctionBuilder<'static>) -> Set<u32>;

/// The numbers of the blocks that there are in a builder.
pub uninterp spec fn blocks_of(b: FunctionBuilder<'static>) -> Set<u32>;

/// The numbers of the blocks that nothing has gone to yet.
pub uninterp spec fn blank_of(b: FunctionBuilder<'static>) -> Set<u32>;

/// How many integers the function in a builder takes, and what it gives back.
pub uninterp spec fn sig_in(b: FunctionBuilder<'static>) -> (nat, Ret);

/// How many integers a function takes, and what it gives back.
pub uninterp spec fn sig_of(f: clif::Function) -> (nat, Ret);

/// What the builder of a function was given.
pub uninterp spec fn body_of(f: clif::Function) -> Seq<Step>;

/// The functions that a module knows of, by number.
pub uninterp spec fn declared_of(m: JITModule) -> Map<u32, Decl>;

/// What the builders of the functions with code in a module were given.
pub uninterp spec fn defined_of(m: JITModule) -> Map<u32, Seq<Step>>;

/// The functions whose code can be run.
pub uninterp spec fn ready_of(m: JITModule) -> Set<u32>;

/// Where the code of the functions in a module is.
pub uninterp spec fn code_at(m: JITModule) -> Map<u32, usize>;

/// How many bytes the code of the functions in a module takes up.
pub uninterp spec fn code_len(m: JITModule) -> Map<u32, usize>;

/// The addresses that a module has been told of, by name.
pub uninterp spec fn known_to(m: JITModule) -> Map<Seq<char>, usize>;

/// How many steps a builder can be given: no number runs out before.
pub const MAX_STEPS: usize = 0x7fff_ffff;

/// How many parameters a block can have: cranelift numbers them in two bytes.
pub const MAX_PARAMS: usize = 0x1_0000;

/// How many parameters of a block there are among some steps.
pub open spec fn params_in(s: Seq<Step>, block: u32) -> nat
    decreases s.len(),
{
    if s.len() == 0 {
        0
    } else if (s.last() matches Step::Param { block: c, .. } && c == block) {
        params_in(s.drop_last(), block) + 1
    } else {
        params_in(s.drop_last(), block)
    }
}

/// A block that no step is about has no parameters.
proof fn lemma_no_params(s: Seq<Step>, block: u32)
    requires
        forall|k: int| 0 <= k < s.len() ==> !((#[trigger] s[k]) matches Step::Param { block: c, .. } && c == block),
    ensures
        params_in(s, block) == 0,
    decreases s.len(),
{
    if s.len() > 0 {
        let _ = s[s.len() - 1];
        assert forall|k: int| 0 <= k < s.drop_last().len() implies !((#[trigger] s.drop_last()[k]) matches Step::Param {
            block: c,
            ..
        } && c == block) by {
            assert(s.drop_last()[k] == s[k]);
        }
        lemma_no_params(s.drop_last(), block);
    }
}

/// A step more.
proof fn lemma_params_push(s: Seq<Step>, x: Step, block: u32)
    ensures
        params_in(s.push(x), block) == params_in(s, block) + if (x matches Step::Param { block: c, .. } && c
            == block) {
            1nat
        } else {
            0nat
        },
{
    assert(s.push(x).drop_last() =~= s);
}

/// Whether a step ends a block.
pub open spec fn ends_block(s: Step) -> bool {
    s is Jump || s is Brif || s is Return
}

/// Whether a step belongs to no block.
pub open spec fn no_block(s: Step) -> bool {
    s is NewBlock || s is Param
}

/// Whether the builder is at a block that has not been ended.
pub open spec fn inside(s: Seq<Step>) -> bool {
    s.len() > 0 && !ends_block(s.last()) && !no_block(s.last())
}

/// Whether the builder is at no block, or at one that has been ended.
pub open spec fn outside(s: Seq<Step>) -> bool {
    s.len() == 0 || ends_block(s.last()) || no_block(s.last())
}

/// Whether all those values are there.
pub open spec fn all_in(args: Seq<u32>, have: Set<u32>) -> bool {
    forall|k: int| 0 <= k < args.len() ==> have.contains(#[trigger] args[k])
}

/// Whether an instruction can be given to a builder.
pub open spec fn open_for_one(b: FunctionBuilder<'static>) -> bool {
    inside(steps_of(b)) && steps_of(b).len() < MAX_STEPS
}

/// Whether a builder has been given one step more, which made a value.
pub open spec fn gave(
    b: FunctionBuilder<'static>,
    after: FunctionBuilder<'static>,
    s: Step,
    r: u32,
) -> bool {
    &&& steps_of(after) == steps_of(b).push(s)
    &&& !values_of(b).contains(r)
    &&& values_of(after) == values_of(b).insert(r)
    &&& blocks_of(after) == blocks_of(b)
    &&& blank_of(after) == blank_of(b)
    &&& sig_in(after) == sig_in(b)
}

/// Whether a builder has been given one step more, which made no value.
pub open spec fn took(b: FunctionBuilder<'static>, after: FunctionBuilder<'static>, s: Step) -> bool {
    &&& steps_of(after) == steps_of(b).push(s)
    &&& values_of(after) == values_of(b)
    &&& blocks_of(after) == blocks_of(b)
    &&& blank_of(after) == blank_of(b)
    &&& sig_in(after) == sig_in(b)
}

/// Whether a module has not changed.
pub open spec fn same_module(m: JITModule, after: JITModule) -> bool {
    &&& declared_of(after) == declared_of(m)
    &&& defined_of(after) == defined_of(m)
    &&& ready_of(after) == ready_of(m)
    &&& known_to(after) == known_to(m)
    &&& code_at(after) == code_at(m)
    &&& code_len(after) == code_len(m)
}

// ---------------------------------------------------------------------------
// The steps.
// ---------------------------------------------------------------------------

/// `FunctionBuilder::new`, on an empty function that takes that many integers and
/// gives back what is said. The function, and the builder's work space, stay for
/// as long as the program runs.
#[verifier::external_body]
pub(crate) fn new_builder(m: &JITModule, params: usize, ret: Ret) -> (r: FunctionBuilder<'static>)
    ensures
        steps_of(r) == Seq::<Step>::empty(),
        values_of(r) == Set::<u32>::empty(),
        blocks_of(r) == Set::<u32>::empty(),
        blank_of(r) == Set::<u32>::empty(),
        sig_in(r) == (params as nat, ret),
{
    let mut sig = m.make_signature();
    sig.params.resize(params, clif::AbiParam::new(types::I64));
    match ret {
        Ret::Nothing => {}
        Ret::Int => sig.returns.push(clif::AbiParam::new(types::I64)),
        Ret::Float => sig.returns.push(clif::AbiParam::new(types::F64)),
    }
    let mut func = clif::Function::new();
    func.signature = sig;
    FunctionBuilder::new(Box::leak(Box::new(func)), Box::leak(Box::new(FunctionBuilderContext::new())))
}

/// `FunctionBuilder::create_block`: a block with a number that none had.
#[verifier::external_body]
fn create_block(b: &mut FunctionBuilder<'static>) -> (r: u32)
    requires
        steps_of(*old(b)).len() < MAX_STEPS,
        outside(steps_of(*old(b))),
    ensures
        steps_of(*final(b)) == steps_of(*old(b)).push(Step::NewBlock { r }),
        values_of(*final(b)) == values_of(*old(b)),
        !blocks_of(*old(b)).contains(r),
        blocks_of(*final(b)) == blocks_of(*old(b)).insert(r),
        blank_of(*final(b)) == blank_of(*old(b)).insert(r),
        sig_in(*final(b)) == sig_in(*old(b)),
{
    b.create_block().as_u32()
}

/// `FunctionBuilder::append_block_param`, for a value of eight bytes. It does not
/// return where something has gone to the block already, or it has as many parameters
/// as it can.
#[verifier::external_body]
fn append_block_param(b: &mut FunctionBuilder<'static>, block: u32) -> (r: u32)
    requires
        steps_of(*old(b)).len() < MAX_STEPS,
        outside(steps_of(*old(b))),
        blank_of(*old(b)).contains(block),
        params_in(steps_of(*old(b)), block) < MAX_PARAMS,
    ensures
        gave(*old(b), *final(b), Step::Param { block, r }, r),
{
    b.append_block_param(clif::Block::from_u32(block), types::I64).as_u32()
}

/// `FunctionBuilder::switch_to_block`. It does not return where the block before
/// has not been ended, or something has gone to this one.
#[verifier::external_body]
fn switch_to_block(b: &mut FunctionBuilder<'static>, block: u32)
    requires
        steps_of(*old(b)).len() < MAX_STEPS,
        outside(steps_of(*old(b))),
        blank_of(*old(b)).contains(block),
    ensures
        steps_of(*final(b)) == steps_of(*old(b)).push(Step::Switch { block }),
        values_of(*final(b)) == values_of(*old(b)),
        blocks_of(*final(b)) == blocks_of(*old(b)),
        blank_of(*final(b)) == blank_of(*old(b)).remove(block),
        sig_in(*final(b)) == sig_in(*old(b)),
{
    b.switch_to_block(clif::Block::from_u32(block))
}

/// `FunctionBuilder::seal_all_blocks`: no more jumps will come.
#[verifier::external_body]
fn seal_all_blocks(b: &mut FunctionBuilder<'static>)
    requires
        outside(steps_of(*old(b))),
    ensures
        steps_of(*final(b)) == steps_of(*old(b)),
        sig_in(*final(b)) == sig_in(*old(b)),
{
    b.seal_all_blocks()
}

/// `std::mem::replace`, to take the function out of its builder.
#[verifier::external_body]
fn take_function(b: FunctionBuilder<'static>) -> (r: clif::Function)
    ensures
        body_of(r) == steps_of(b),
        sig_of(r) == sig_in(b),
{
    std::mem::replace(b.func, clif::Function::new())
}

/// `InstBuilder::iadd`: addition.
#[verifier::external_body]
fn iadd(b: &mut FunctionBuilder<'static>, x: u32, y: u32) -> (r: u32)
    requires
        open_for_one(*old(b)),
        values_of(*old(b)).contains(x),
        values_of(*old(b)).contains(y),
    ensures
        gave(*old(b), *final(b), Step::Iadd { x, y, r }, r),
{
    b.ins().iadd(clif::Value::from_u32(x), clif::Value::from_u32(y)).as_u32()
}

/// `InstBuilder::isub`: subtraction.
#[verifier::external_body]
fn isub(b: &mut FunctionBuilder<'static>, x: u32, y: u32) -> (r: u32)
    requires
        open_for_one(*old(b)),
        values_of(*old(b)).contains(x),
        values_of(*old(b)).contains(y),
    ensures
        gave(*old(b), *final(b), Step::Isub { x, y, r }, r),
{
    b.ins().isub(clif::Value::from_u32(x), clif::Value::from_u32(y)).as_u32()
}

/// `InstBuilder::imul`: multiplication.
#[verifier::external_body]
fn imul(b: &mut FunctionBuilder<'static>, x: u32, y: u32) -> (r: u32)
    requires
        open_for_one(*old(b)),
        values_of(*old(b)).contains(x),
        values_of(*old(b)).contains(y),
    ensures
        gave(*old(b), *final(b), Step::Imul { x, y, r }, r),
{
    b.ins().imul(clif::Value::from_u32(x), clif::Value::from_u32(y)).as_u32()
}

/// `InstBuilder::bor`: bitwise or.
#[verifier::external_body]
fn bor(b: &mut FunctionBuilder<'static>, x: u32, y: u32) -> (r: u32)
    requires
        open_for_one(*old(b)),
        values_of(*old(b)).contains(x),
        values_of(*old(b)).contains(y),
    ensures
        gave(*old(b), *final(b), Step::Bor { x, y, r }, r),
{
    b.ins().bor(clif::Value::from_u32(x), clif::Value::from_u32(y)).as_u32()
}

/// `InstBuilder::band`: bitwise and.
#[verifier::external_body]
fn band(b: &mut FunctionBuilder<'static>, x: u32, y: u32) -> (r: u32)
    requires
        open_for_one(*old(b)),
        values_of(*old(b)).contains(x),
        values_of(*old(b)).contains(y),
    ensures
        gave(*old(b), *final(b), Step::Band { x, y, r }, r),
{
    b.ins().band(clif::Value::from_u32(x), clif::Value::from_u32(y)).as_u32()
}

/// `InstBuilder::iadd_imm`: addition of a constant.
#[verifier::external_body]
fn iadd_imm(b: &mut FunctionBuilder<'static>, x: u32, v: i64) -> (r: u32)
    requires
        open_for_one(*old(b)),
        values_of(*old(b)).contains(x),
    ensures
        gave(*old(b), *final(b), Step::IaddImm { x, v, r }, r),
{
    b.ins().iadd_imm(clif::Value::from_u32(x), v).as_u32()
}

/// `InstBuilder::imul_imm`: multiplication by a constant.
#[verifier::external_body]
fn imul_imm(b: &mut FunctionBuilder<'static>, x: u32, v: i64) -> (r: u32)
    requires
        open_for_one(*old(b)),
        values_of(*old(b)).contains(x),
    ensures
        gave(*old(b), *final(b), Step::ImulImm { x, v, r }, r),
{
    b.ins().imul_imm(clif::Value::from_u32(x), v).as_u32()
}

/// `InstBuilder::ineg`: the negative.
#[verifier::external_body]
fn ineg(b: &mut FunctionBuilder<'static>, x: u32) -> (r: u32)
    requires
        open_for_one(*old(b)),
        values_of(*old(b)).contains(x),
    ensures
        gave(*old(b), *final(b), Step::Ineg { x, r }, r),
{
    b.ins().ineg(clif::Value::from_u32(x)).as_u32()
}

/// `InstBuilder::iconst`: a constant of that many bytes.
#[verifier::external_body]
fn iconst(b: &mut FunctionBuilder<'static>, width: u8, v: i64) -> (r: u32)
    requires
        open_for_one(*old(b)),
        width == 1 || width == 2 || width == 4 || width == 8,
    ensures
        gave(*old(b), *final(b), Step::Iconst { width, v, r }, r),
{
    let ty = clif::Type::int_with_byte_size(width.into()).unwrap();
    b.ins().iconst(ty, v).as_u32()
}

/// `InstBuilder::stack_addr`, of 16 new bytes in the function's frame.
#[verifier::external_body]
fn scratch(b: &mut FunctionBuilder<'static>) -> (r: u32)
    requires
        open_for_one(*old(b)),
    ensures
        gave(*old(b), *final(b), Step::Scratch { r }, r),
{
    let data = clif::StackSlotData::new(clif::StackSlotKind::ExplicitSlot, 16, 3);
    let slot = b.create_sized_stack_slot(data);
    b.ins().stack_addr(types::I64, slot, 0).as_u32()
}

/// `InstBuilder::icmp`: a comparison.
#[verifier::external_body]
fn icmp(b: &mut FunctionBuilder<'static>, cc: Cc, x: u32, y: u32) -> (r: u32)
    requires
        open_for_one(*old(b)),
        values_of(*old(b)).contains(x),
        values_of(*old(b)).contains(y),
    ensures
        gave(*old(b), *final(b), Step::Test { cc, x, y, r }, r),
{
    let cond = match cc {
        Cc::Equal => IntCC::Equal,
        Cc::Ult => IntCC::UnsignedLessThan,
        Cc::Uge => IntCC::UnsignedGreaterThanOrEqual,
    };
    b.ins().icmp(cond, clif::Value::from_u32(x), clif::Value::from_u32(y)).as_u32()
}

/// `InstBuilder::icmp_imm`: a comparison with a constant.
#[verifier::external_body]
fn icmp_imm(b: &mut FunctionBuilder<'static>, cc: Cc, x: u32, v: i64) -> (r: u32)
    requires
        open_for_one(*old(b)),
        values_of(*old(b)).contains(x),
    ensures
        gave(*old(b), *final(b), Step::TestImm { cc, x, v, r }, r),
{
    let cond = match cc {
        Cc::Equal => IntCC::Equal,
        Cc::Ult => IntCC::UnsignedLessThan,
        Cc::Uge => IntCC::UnsignedGreaterThanOrEqual,
    };
    b.ins().icmp_imm(cond, clif::Value::from_u32(x), v).as_u32()
}

/// `InstBuilder::select`: one of two values.
#[verifier::external_body]
fn select(b: &mut FunctionBuilder<'static>, c: u32, x: u32, y: u32) -> (r: u32)
    requires
        open_for_one(*old(b)),
        values_of(*old(b)).contains(c),
        values_of(*old(b)).contains(x),
        values_of(*old(b)).contains(y),
    ensures
        gave(*old(b), *final(b), Step::Select { c, x, y, r }, r),
{
    b.ins().select(clif::Value::from_u32(c), clif::Value::from_u32(x), clif::Value::from_u32(y)).as_u32()
}

/// `InstBuilder::uextend`: the value in eight bytes.
#[verifier::external_body]
fn uextend(b: &mut FunctionBuilder<'static>, x: u32) -> (r: u32)
    requires
        open_for_one(*old(b)),
        values_of(*old(b)).contains(x),
    ensures
        gave(*old(b), *final(b), Step::Uextend { x, r }, r),
{
    b.ins().uextend(types::I64, clif::Value::from_u32(x)).as_u32()
}

/// `InstBuilder::ireduce`: the lowest bytes.
#[verifier::external_body]
fn ireduce(b: &mut FunctionBuilder<'static>, width: u8, x: u32) -> (r: u32)
    requires
        open_for_one(*old(b)),
        values_of(*old(b)).contains(x),
        width == 1 || width == 2 || width == 4 || width == 8,
    ensures
        gave(*old(b), *final(b), Step::Ireduce { width, x, r }, r),
{
    let ty = clif::Type::int_with_byte_size(width.into()).unwrap();
    b.ins().ireduce(ty, clif::Value::from_u32(x)).as_u32()
}

/// `InstBuilder::load`, of that many bytes.
#[verifier::external_body]
fn load(b: &mut FunctionBuilder<'static>, width: u8, addr: u32, off: i32) -> (r: u32)
    requires
        open_for_one(*old(b)),
        values_of(*old(b)).contains(addr),
        width == 1 || width == 2 || width == 4 || width == 8,
    ensures
        gave(*old(b), *final(b), Step::Load { width, addr, off, r }, r),
{
    let ty = clif::Type::int_with_byte_size(width.into()).unwrap();
    b.ins().load(ty, clif::MemFlags::trusted(), clif::Value::from_u32(addr), off).as_u32()
}

/// `InstBuilder::store`, of all the bytes of a value.
#[verifier::external_body]
fn store(b: &mut FunctionBuilder<'static>, x: u32, addr: u32, off: i32)
    requires
        open_for_one(*old(b)),
        values_of(*old(b)).contains(x),
        values_of(*old(b)).contains(addr),
    ensures
        took(*old(b), *final(b), Step::Store { x, addr, off }),
{
    b.ins().store(clif::MemFlags::trusted(), clif::Value::from_u32(x), clif::Value::from_u32(addr), off);
}

/// `InstBuilder::call_indirect` of a function that takes integers of eight bytes, or
/// pointers, and gives nothing back.
#[verifier::external_body]
fn call_at(b: &mut FunctionBuilder<'static>, at: u32, args: &Vec<u32>)
    requires
        open_for_one(*old(b)),
        values_of(*old(b)).contains(at),
        all_in(args@, values_of(*old(b))),
    ensures
        took(*old(b), *final(b), (Step::CallAt { at, args: args@ })),
{
    let mut sig = clif::Signature::new(b.func.signature.call_conv);
    sig.params = args.iter().map(|_| clif::AbiParam::new(types::I64)).collect();
    let sig = b.import_signature(sig);
    let args = args.iter().map(|a| clif::Value::from_u32(*a)).collect::<Vec<_>>();
    b.ins().call_indirect(sig, clif::Value::from_u32(at), &args);
}

/// `InstBuilder::bitcast`: the bytes as a floating-point number of eight bytes.
#[verifier::external_body]
fn bitcast(b: &mut FunctionBuilder<'static>, x: u32) -> (r: u32)
    requires
        open_for_one(*old(b)),
        values_of(*old(b)).contains(x),
    ensures
        gave(*old(b), *final(b), Step::Bitcast { x, r }, r),
{
    b.ins().bitcast(types::F64, clif::MemFlags::new(), clif::Value::from_u32(x)).as_u32()
}

/// `InstBuilder::fdemote`: the floating-point number in four bytes.
#[verifier::external_body]
fn fdemote(b: &mut FunctionBuilder<'static>, x: u32) -> (r: u32)
    requires
        open_for_one(*old(b)),
        values_of(*old(b)).contains(x),
    ensures
        gave(*old(b), *final(b), Step::Fdemote { x, r }, r),
{
    b.ins().fdemote(types::F32, clif::Value::from_u32(x)).as_u32()
}

/// `InstBuilder::call` of a function of the module. It does not return where the
/// module has no such function, or the function gives nothing back.
#[verifier::external_body]
fn call(m: &mut JITModule, b: &mut FunctionBuilder<'static>, func: u32, args: &Vec<u32>) -> (r: u32)
    requires
        open_for_one(*old(b)),
        all_in(args@, values_of(*old(b))),
        declared_of(*old(m)).contains_key(func),
        declared_of(*old(m))[func].ret != Ret::Nothing,
    ensures
        declared_of(*final(m)) == declared_of(*old(m)),
        defined_of(*final(m)) == defined_of(*old(m)),
        ready_of(*final(m)) == ready_of(*old(m)),
        known_to(*final(m)) == known_to(*old(m)),
        code_at(*final(m)) == code_at(*old(m)),
        code_len(*final(m)) == code_len(*old(m)),
        gave(*old(b), *final(b), (Step::Call { func, args: args@, r }), r),
{
    let callee = m.declare_func_in_func(FuncId::from_u32(func), b.func);
    let args = args.iter().map(|a| clif::Value::from_u32(*a)).collect::<Vec<_>>();
    let inst = b.ins().call(callee, &args);
    b.inst_results(inst)[0].as_u32()
}

/// `InstBuilder::jump`.
#[verifier::external_body]
fn jump(b: &mut FunctionBuilder<'static>, to: u32, args: &Vec<u32>)
    requires
        open_for_one(*old(b)),
        blocks_of(*old(b)).contains(to),
        all_in(args@, values_of(*old(b))),
    ensures
        took(*old(b), *final(b), (Step::Jump { to, args: args@ })),
{
    let args = args.iter().map(|a| clif::Value::from_u32(*a).into()).collect::<Vec<_>>();
    b.ins().jump(clif::Block::from_u32(to), &args);
}

/// `InstBuilder::brif`: to the first block where the value is not zero.
#[verifier::external_body]
fn brif(b: &mut FunctionBuilder<'static>, c: u32, yes: u32, yes_args: &Vec<u32>, no: u32, no_args: &Vec<u32>)
    requires
        open_for_one(*old(b)),
        values_of(*old(b)).contains(c),
        blocks_of(*old(b)).contains(yes),
        blocks_of(*old(b)).contains(no),
        all_in(yes_args@, values_of(*old(b))),
        all_in(no_args@, values_of(*old(b))),
    ensures
        took(
            *old(b),
            *final(b),
            (Step::Brif { c, yes, yes_args: yes_args@, no, no_args: no_args@ }),
        ),
{
    let y = yes_args.iter().map(|a| clif::Value::from_u32(*a).into()).collect::<Vec<_>>();
    let n = no_args.iter().map(|a| clif::Value::from_u32(*a).into()).collect::<Vec<_>>();
    let (yes, no) = (clif::Block::from_u32(yes), clif::Block::from_u32(no));
    b.ins().brif(clif::Value::from_u32(c), yes, &y, no, &n);
}

/// `InstBuilder::return_`.
#[verifier::external_body]
fn return_(b: &mut FunctionBuilder<'static>, args: &Vec<u32>)
    requires
        open_for_one(*old(b)),
        all_in(args@, values_of(*old(b))),
    ensures
        took(*old(b), *final(b), (Step::Return { args: args@ })),
{
    let args = args.iter().map(|a| clif::Value::from_u32(*a)).collect::<Vec<_>>();
    b.ins().return_(&args);
}

// ---------------------------------------------------------------------------
// What is handed over.
// ---------------------------------------------------------------------------

/// The numbers of blocks, of their parameters, and of what their instructions
/// give.
#[verifier::ext_equal]
pub struct Numbers {
    pub blocks: Seq<u32>,
    pub params: Seq<Seq<u32>>,
    pub insts: Seq<Seq<Option<u32>>>,
}

/// What code refers to outside itself: the addresses of its keys, and the numbers
/// of the functions that it calls.
pub struct Links {
    pub keys: Seq<u64>,
    pub shims: Seq<u32>,
    pub funcs: Seq<u32>,
}

/// Where a function that compiled code calls stands in a list of them all.
pub open spec fn place(shim: Shim) -> int {
    match shim {
        Shim::ObjGet => 0,
        Shim::ArrLen => 1,
        Shim::ArrGet => 2,
        Shim::AsU64 => 3,
        Shim::AsI64 => 4,
        Shim::AsF64 => 5,
        Shim::AsBool => 6,
        Shim::AsChar => 7,
        Shim::StrPtr => 8,
        Shim::StrLen => 9,
        Shim::Dup => 10,
        Shim::Alloc => 11,
        Shim::Skip => 12,
        Shim::F64v => 13,
        Shim::CharAt => 14,
    }
}

/// Whether a value has a number.
pub open spec fn known(n: Numbers, v: Value) -> bool {
    match v {
        Value::Param(b, p) => b < n.params.len() && p < n.params[b as int].len(),
        Value::Inst(b, k) => {
            &&& b < n.insts.len()
            &&& k < n.insts[b as int].len()
            &&& n.insts[b as int][k as int] is Some
        },
    }
}

/// The number of a value.
pub open spec fn num(n: Numbers, v: Value) -> u32 {
    match v {
        Value::Param(b, p) => n.params[b as int][p as int],
        Value::Inst(b, k) => n.insts[b as int][k as int]->0,
    }
}

/// Whether all arguments have numbers.
pub open spec fn all_known(n: Numbers, a: Args) -> bool {
    match a {
        Args::Zero => true,
        Args::One(x) => known(n, x),
        Args::Two(x, y) => known(n, x) && known(n, y),
        Args::Three(x, y, z) => known(n, x) && known(n, y) && known(n, z),
    }
}

/// The numbers of arguments.
pub open spec fn nums(n: Numbers, a: Args) -> Seq<u32> {
    match a {
        Args::Zero => Seq::empty(),
        Args::One(x) => Seq::empty().push(num(n, x)),
        Args::Two(x, y) => Seq::empty().push(num(n, x)).push(num(n, y)),
        Args::Three(x, y, z) => Seq::empty().push(num(n, x)).push(num(n, y)).push(num(n, z)),
    }
}

/// Whether there is an integer type of that many bytes.
pub open spec fn is_width(width: u8) -> bool {
    width == 1 || width == 2 || width == 4 || width == 8
}

/// Whether an instruction gives a value.
pub open spec fn gives_value(i: Inst) -> bool {
    !(i is Store) && !(i is MapNew) && !(i is MapInsert)
}

/// Whether an instruction can be handed over: all that it refers to has a number,
/// and its constants fit.
#[verifier::opaque]
pub open spec fn can_step(n: Numbers, l: Links, i: Inst) -> bool {
    match i {
        Inst::Iconst(v) => true,
        Inst::False => true,
        Inst::Key(k) => k < l.keys.len(),
        Inst::Scratch => true,
        Inst::Iadd(x, y) => known(n, x) && known(n, y),
        Inst::Isub(x, y) => known(n, x) && known(n, y),
        Inst::Imul(x, y) => known(n, x) && known(n, y),
        Inst::Bor(x, y) => known(n, x) && known(n, y),
        Inst::Band(x, y) => known(n, x) && known(n, y),
        Inst::IaddImm(x, v) => known(n, x),
        Inst::ImulImm(x, v) => known(n, x),
        Inst::Ineg(x) => known(n, x),
        Inst::Test(cc, x, y) => known(n, x) && known(n, y),
        Inst::TestImm(cc, x, v) => known(n, x),
        Inst::Select(c, x, y) => known(n, c) && known(n, x) && known(n, y),
        Inst::Uextend(x) => known(n, x),
        Inst::Ireduce(width, x) => is_width(width) && known(n, x),
        Inst::Load { width, addr, off } => is_width(width) && known(n, addr) && off <= i32::MAX,
        Inst::Store { width, val, addr, off } => known(n, val) && known(n, addr) && off <= i32::MAX,
        Inst::Bitcast(x) => known(n, x),
        Inst::Fdemote(x) => known(n, x),
        Inst::MapNew { at, dst } => known(n, at) && known(n, dst),
        Inst::MapInsert { at, dst, key, val } => known(n, at) && known(n, dst) && known(n, key) && known(
            n,
            val,
        ),
        Inst::Call(shim, args) => all_known(n, args),
        Inst::CallFn { func, dst, cur, end, sc } => {
            &&& func < l.funcs.len()
            &&& known(n, dst)
            &&& known(n, cur)
            &&& known(n, end)
            &&& known(n, sc)
        },
    }
}

/// The step that hands over an instruction, whose result has the number `r`.
#[verifier::opaque]
pub open spec fn step(n: Numbers, l: Links, r: u32, i: Inst) -> Step {
    match i {
        Inst::Iconst(v) => Step::Iconst { width: 8, v, r },
        Inst::False => Step::Iconst { width: 1, v: 0, r },
        Inst::Key(k) => Step::Iconst { width: 8, v: l.keys[k as int] as i64, r },
        Inst::Scratch => Step::Scratch { r },
        Inst::Iadd(x, y) => Step::Iadd { x: num(n, x), y: num(n, y), r },
        Inst::Isub(x, y) => Step::Isub { x: num(n, x), y: num(n, y), r },
        Inst::Imul(x, y) => Step::Imul { x: num(n, x), y: num(n, y), r },
        Inst::Bor(x, y) => Step::Bor { x: num(n, x), y: num(n, y), r },
        Inst::Band(x, y) => Step::Band { x: num(n, x), y: num(n, y), r },
        Inst::IaddImm(x, v) => Step::IaddImm { x: num(n, x), v, r },
        Inst::ImulImm(x, v) => Step::ImulImm { x: num(n, x), v, r },
        Inst::Ineg(x) => Step::Ineg { x: num(n, x), r },
        Inst::Test(cc, x, y) => Step::Test { cc, x: num(n, x), y: num(n, y), r },
        Inst::TestImm(cc, x, v) => Step::TestImm { cc, x: num(n, x), v, r },
        Inst::Select(c, x, y) => Step::Select { c: num(n, c), x: num(n, x), y: num(n, y), r },
        Inst::Uextend(x) => Step::Uextend { x: num(n, x), r },
        Inst::Ireduce(width, x) => Step::Ireduce { width, x: num(n, x), r },
        Inst::Load { width, addr, off } => Step::Load { width, addr: num(n, addr), off: off as i32, r },
        Inst::Store { width, val, addr, off } => Step::Store {
            x: num(n, val),
            addr: num(n, addr),
            off: off as i32,
        },
        Inst::Bitcast(x) => Step::Bitcast { x: num(n, x), r },
        Inst::Fdemote(x) => Step::Fdemote { x: num(n, x), r },
        Inst::MapNew { at, dst } => Step::CallAt { at: num(n, at), args: Seq::empty().push(num(n, dst)) },
        Inst::MapInsert { at, dst, key, val } => Step::CallAt {
            at: num(n, at),
            args: Seq::empty().push(num(n, dst)).push(num(n, key)).push(num(n, val)),
        },
        Inst::Call(shim, args) => Step::Call { func: l.shims[place(shim)], args: nums(n, args), r },
        Inst::CallFn { func, dst, cur, end, sc } => Step::Call {
            func: l.funcs[func as int],
            args: Seq::empty().push(num(n, dst)).push(num(n, cur)).push(num(n, end)).push(num(n, sc)),
            r,
        },
    }
}

/// Whether a block can end so: all that it refers to has a number.
#[verifier::opaque]
pub open spec fn can_end(n: Numbers, t: Term) -> bool {
    match t {
        Term::Jump(to) => to.block < n.blocks.len() && all_known(n, to.args),
        Term::Brif(c, yes, no) => {
            &&& known(n, c)
            &&& yes.block < n.blocks.len()
            &&& no.block < n.blocks.len()
            &&& all_known(n, yes.args)
            &&& all_known(n, no.args)
        },
        Term::Return(args) => all_known(n, args),
    }
}

/// The step that hands over how a block ends.
#[verifier::opaque]
pub open spec fn end_step(n: Numbers, t: Term) -> Step {
    match t {
        Term::Jump(to) => Step::Jump { to: n.blocks[to.block as int], args: nums(n, to.args) },
        Term::Brif(c, yes, no) => Step::Brif {
            c: num(n, c),
            yes: n.blocks[yes.block as int],
            yes_args: nums(n, yes.args),
            no: n.blocks[no.block as int],
            no_args: nums(n, no.args),
        },
        Term::Return(args) => Step::Return { args: nums(n, args) },
    }
}

/// A numbering, as it is built up.
pub struct Table {
    blocks: Vec<u32>,
    params: Vec<Vec<u32>>,
    insts: Vec<Vec<Option<u32>>>,
}

impl View for Table {
    type V = Numbers;

    closed spec fn view(&self) -> Numbers {
        Numbers {
            blocks: self.blocks@,
            params: Seq::new(self.params@.len(), |k: int| self.params@[k]@),
            insts: Seq::new(self.insts@.len(), |k: int| self.insts@[k]@),
        }
    }
}

/// What the functions that code can call are, in lists.
pub struct Refs<'a> {
    pub keys: &'a Vec<u64>,
    pub shims: &'a Vec<u32>,
    pub funcs: &'a Vec<u32>,
}

impl<'a> Refs<'a> {
    /// What is referred to.
    pub open spec fn links(&self) -> Links {
        Links { keys: self.keys@, shims: self.shims@, funcs: self.funcs@ }
    }

    /// Whether the module has all those functions, and they give something back.
    pub open spec fn stand_in(&self, m: JITModule) -> bool {
        &&& self.shims@.len() == 15
        &&& forall|k: int|
            0 <= k < self.shims@.len() ==> callable(declared_of(m), #[trigger] self.shims@[k])
        &&& forall|k: int|
            0 <= k < self.funcs@.len() ==> callable(declared_of(m), #[trigger] self.funcs@[k])
    }
}

/// Whether a function can be called for what it gives back.
pub open spec fn callable(have: Map<u32, Decl>, func: u32) -> bool {
    have.contains_key(func) && have[func].ret != Ret::Nothing
}

/// Whether every number of a numbering is that of something in the builder.
pub open spec fn within(n: Numbers, b: FunctionBuilder<'static>) -> bool {
    &&& forall|v: Value| #[trigger] known(n, v) ==> values_of(b).contains(num(n, v))
    &&& forall|k: int|
        0 <= k < n.blocks.len() ==> blocks_of(b).contains(#[trigger] n.blocks[k])
}

/// The number of a value, where it has one.
fn number(t: &Table, v: Value) -> (r: Option<u32>)
    ensures
        r is Some <==> known(t@, v),
        r is Some ==> r->0 == num(t@, v),
{
    match v {
        Value::Param(b, p) => {
            if b < t.params.len() {
                assert(t@.params[b as int] == t.params@[b as int]@);
                if p < t.params[b].len() {
                    return Some(t.params[b][p]);
                }
            }
            None
        },
        Value::Inst(b, k) => {
            if b < t.insts.len() {
                assert(t@.insts[b as int] == t.insts@[b as int]@);
                if k < t.insts[b].len() {
                    return t.insts[b][k];
                }
            }
            None
        },
    }
}

/// The numbers of arguments, where all have one.
fn numbers(t: &Table, a: Args) -> (r: Option<Vec<u32>>)
    ensures
        r is Some <==> all_known(t@, a),
        r is Some ==> r->0@ == nums(t@, a),
{
    let mut out: Vec<u32> = Vec::new();
    match a {
        Args::Zero => {},
        Args::One(x) => {
            match number(t, x) {
                Some(v) => out.push(v),
                None => return None,
            }
        },
        Args::Two(x, y) => {
            match (number(t, x), number(t, y)) {
                (Some(v), Some(w)) => {
                    out.push(v);
                    out.push(w);
                },
                _ => return None,
            }
        },
        Args::Three(x, y, z) => {
            match (number(t, x), number(t, y), number(t, z)) {
                (Some(v), Some(w), Some(u)) => {
                    out.push(v);
                    out.push(w);
                    out.push(u);
                },
                _ => return None,
            }
        },
    }
    Some(out)
}

/// Where a function stands in a list of them all.
fn place_of(shim: Shim) -> (r: usize)
    ensures
        r == place(shim),
        r < 15,
{
    match shim {
        Shim::ObjGet => 0,
        Shim::ArrLen => 1,
        Shim::ArrGet => 2,
        Shim::AsU64 => 3,
        Shim::AsI64 => 4,
        Shim::AsF64 => 5,
        Shim::AsBool => 6,
        Shim::AsChar => 7,
        Shim::StrPtr => 8,
        Shim::StrLen => 9,
        Shim::Dup => 10,
        Shim::Alloc => 11,
        Shim::Skip => 12,
        Shim::F64v => 13,
        Shim::CharAt => 14,
    }
}

/// What hands over an instruction ends no block.
proof fn lemma_goes_inside(n: Numbers, l: Links, r: u32, i: Inst)
    ensures
        !ends_block(step(n, l, r, i)),
        !no_block(step(n, l, r, i)),
{
    reveal(step);
}

/// What hands over the end of a block ends it.
proof fn lemma_goes_out(n: Numbers, t: Term)
    ensures
        ends_block(end_step(n, t)),
{
    reveal(end_step);
}

/// An operation of two values, by its instruction.
fn lower_pair(b: &mut FunctionBuilder<'static>, t: &Table, i: Inst, x: Value, y: Value) -> (r: Option<u32>)
    requires
        open_for_one(*old(b)),
        within(t@, *old(b)),
        i == Inst::Iadd(x, y) || i == Inst::Isub(x, y) || i == Inst::Imul(x, y) || i == Inst::Bor(x, y)
            || i == Inst::Band(x, y) || (i is Test && i->Test_1 == x && i->Test_2 == y),
    ensures
        r is Some <==> known(t@, x) && known(t@, y),
        r is Some ==> gave(
            *old(b),
            *final(b),
            step(t@, (Links { keys: Seq::empty(), shims: Seq::empty(), funcs: Seq::empty() }), r->0, i),
            r->0,
        ),
{
    proof {
        reveal(can_step);
        reveal(step);
    }
    match (number(t, x), number(t, y)) {
        (Some(p), Some(q)) => match i {
            Inst::Iadd(..) => Some(iadd(b, p, q)),
            Inst::Isub(..) => Some(isub(b, p, q)),
            Inst::Imul(..) => Some(imul(b, p, q)),
            Inst::Bor(..) => Some(bor(b, p, q)),
            Inst::Band(..) => Some(band(b, p, q)),
            Inst::Test(cc, ..) => Some(icmp(b, cc, p, q)),
            _ => None,
        },
        _ => None,
    }
}

/// An operation of one value, by its instruction.
fn lower_single(b: &mut FunctionBuilder<'static>, t: &Table, i: Inst, x: Value) -> (r: Option<u32>)
    requires
        open_for_one(*old(b)),
        within(t@, *old(b)),
        (i is IaddImm && i->IaddImm_0 == x) || (i is ImulImm && i->ImulImm_0 == x) || i == Inst::Ineg(x)
            || (i is TestImm && i->TestImm_1 == x) || i == Inst::Uextend(x) || i == Inst::Bitcast(x)
            || i == Inst::Fdemote(x),
    ensures
        r is Some <==> known(t@, x),
        r is Some ==> gave(
            *old(b),
            *final(b),
            step(t@, (Links { keys: Seq::empty(), shims: Seq::empty(), funcs: Seq::empty() }), r->0, i),
            r->0,
        ),
{
    proof {
        reveal(can_step);
        reveal(step);
    }
    match number(t, x) {
        Some(p) => match i {
            Inst::IaddImm(_, v) => Some(iadd_imm(b, p, v)),
            Inst::ImulImm(_, v) => Some(imul_imm(b, p, v)),
            Inst::Ineg(_) => Some(ineg(b, p)),
            Inst::TestImm(cc, _, v) => Some(icmp_imm(b, cc, p, v)),
            Inst::Uextend(_) => Some(uextend(b, p)),
            Inst::Bitcast(_) => Some(bitcast(b, p)),
            Inst::Fdemote(_) => Some(fdemote(b, p)),
            _ => None,
        },
        None => None,
    }
}

/// A pointer's bits, as a constant.
fn address_bits(a: u64) -> (r: i64)
    ensures
        r == a as i64,
{
    a as i64
}

/// An offset, as a constant.
fn offset_bits(off: u64) -> (r: i32)
    ensures
        r == off as i32,
{
    off as i32
}

/// Hands over an instruction; gives the number of its result.
#[verifier::spinoff_prover]
#[verifier::rlimit(60)]
fn lower_inst(m: &mut JITModule, b: &mut FunctionBuilder<'static>, t: &Table, l: &Refs, i: Inst) -> (r: Option<Option<u32>>)
    requires
        open_for_one(*old(b)),
        within(t@, *old(b)),
        l.stand_in(*old(m)),
    ensures
        same_module(*old(m), *final(m)),
        r is Some <==> can_step(t@, l.links(), i),
        r matches Some(Some(n)) ==> gives_value(i) && gave(*old(b), *final(b), step(t@, l.links(), n, i), n),
        r matches Some(None) ==> !gives_value(i) && took(*old(b), *final(b), step(t@, l.links(), 0, i)),
{
    proof {
        reveal(can_step);
        reveal(step);
    }
    let one = match i {
        Inst::Iconst(v) => Some(iconst(b, 8, v)),
        Inst::False => Some(iconst(b, 1, 0)),
        Inst::Key(k) => if k < l.keys.len() {
            Some(iconst(b, 8, address_bits(l.keys[k])))
        } else {
            None
        },
        Inst::Scratch => Some(scratch(b)),
        Inst::Iadd(x, y) => lower_pair(b, t, i, x, y),
        Inst::Isub(x, y) => lower_pair(b, t, i, x, y),
        Inst::Imul(x, y) => lower_pair(b, t, i, x, y),
        Inst::Bor(x, y) => lower_pair(b, t, i, x, y),
        Inst::Band(x, y) => lower_pair(b, t, i, x, y),
        Inst::Test(_, x, y) => lower_pair(b, t, i, x, y),
        Inst::IaddImm(x, _) => lower_single(b, t, i, x),
        Inst::ImulImm(x, _) => lower_single(b, t, i, x),
        Inst::Ineg(x) => lower_single(b, t, i, x),
        Inst::TestImm(_, x, _) => lower_single(b, t, i, x),
        Inst::Uextend(x) => lower_single(b, t, i, x),
        Inst::Bitcast(x) => lower_single(b, t, i, x),
        Inst::Fdemote(x) => lower_single(b, t, i, x),
        Inst::Select(c, x, y) => match (number(t, c), number(t, x), number(t, y)) {
            (Some(o), Some(p), Some(q)) => Some(select(b, o, p, q)),
            _ => None,
        },
        Inst::Ireduce(width, x) => if width == 1 || width == 2 || width == 4 || width == 8 {
            match number(t, x) {
                Some(p) => Some(ireduce(b, width, p)),
                None => None,
            }
        } else {
            None
        },
        Inst::Load { width, addr, off } => if (width == 1 || width == 2 || width == 4 || width == 8)
            && off <= 0x7fff_ffff {
            match number(t, addr) {
                Some(p) => Some(load(b, width, p, offset_bits(off))),
                None => None,
            }
        } else {
            None
        },
        Inst::Store { width, val, addr, off } => {
            if off > 0x7fff_ffff {
                return None;
            }
            match (number(t, val), number(t, addr)) {
                (Some(p), Some(q)) => {
                    store(b, p, q, offset_bits(off));
                    return Some(None);
                },
                _ => return None,
            }
        },
        Inst::MapNew { at, dst } => match (number(t, at), number(t, dst)) {
            (Some(p), Some(q)) => {
                let mut a: Vec<u32> = Vec::new();
                a.push(q);
                call_at(b, p, &a);
                return Some(None);
            },
            _ => return None,
        },
        Inst::MapInsert { at, dst, key, val } => {
            match (number(t, at), number(t, dst), number(t, key), number(t, val)) {
                (Some(o), Some(p), Some(q), Some(s)) => {
                    let mut a: Vec<u32> = Vec::new();
                    a.push(p);
                    a.push(q);
                    a.push(s);
                    call_at(b, o, &a);
                    return Some(None);
                },
                _ => return None,
            }
        },
        Inst::Call(shim, args) => match numbers(t, args) {
            Some(a) => {
                let func = l.shims[place_of(shim)];
                Some(call(m, b, func, &a))
            },
            None => None,
        },
        Inst::CallFn { func, dst, cur, end, sc } => {
            if func >= l.funcs.len() {
                return None;
            }
            match (number(t, dst), number(t, cur), number(t, end), number(t, sc)) {
                (Some(o), Some(p), Some(q), Some(s)) => {
                    let mut a: Vec<u32> = Vec::new();
                    a.push(o);
                    a.push(p);
                    a.push(q);
                    a.push(s);
                    Some(call(m, b, l.funcs[func], &a))
                },
                _ => None,
            }
        },
    };
    match one {
        Some(n) => Some(Some(n)),
        None => None,
    }
}

/// Hands over how a block ends.
#[verifier::spinoff_prover]
fn lower_term(b: &mut FunctionBuilder<'static>, t: &Table, term: Term) -> (r: bool)
    requires
        open_for_one(*old(b)),
        within(t@, *old(b)),
    ensures
        r == can_end(t@, term),
        r ==> took(*old(b), *final(b), end_step(t@, term)),
{
    proof {
        reveal(can_end);
        reveal(end_step);
    }
    match term {
        Term::Jump(to) => {
            if to.block >= t.blocks.len() {
                return false;
            }
            match numbers(t, to.args) {
                Some(a) => {
                    assert(t@.blocks[to.block as int] == t.blocks@[to.block as int]);
                    jump(b, t.blocks[to.block], &a);
                    true
                },
                None => false,
            }
        },
        Term::Brif(c, yes, no) => {
            if yes.block >= t.blocks.len() || no.block >= t.blocks.len() {
                return false;
            }
            match (number(t, c), numbers(t, yes.args), numbers(t, no.args)) {
                (Some(p), Some(y), Some(n)) => {
                    assert(t@.blocks[yes.block as int] == t.blocks@[yes.block as int]);
                    assert(t@.blocks[no.block as int] == t.blocks@[no.block as int]);
                    brif(b, p, t.blocks[yes.block], &y, t.blocks[no.block], &n);
                    true
                },
                _ => false,
            }
        },
        Term::Return(args) => match numbers(t, args) {
            Some(a) => {
                return_(b, &a);
                true
            },
            None => false,
        },
    }
}

// ---------------------------------------------------------------------------
// Blocks, and whole functions.
// ---------------------------------------------------------------------------

/// The number of what an instruction gives; zero where it gives nothing.
pub open spec fn number_at(n: Numbers, b: int, k: int) -> u32 {
    match n.insts[b][k] {
        Some(r) => r,
        None => 0,
    }
}

/// The steps that make a block and its parameters.
pub open spec fn opening(n: Numbers, b: int) -> Seq<Step> {
    Seq::new(
        n.params[b].len() + 1,
        |i: int|
            if i == 0 {
                Step::NewBlock { r: n.blocks[b] }
            } else {
                Step::Param { block: n.blocks[b], r: n.params[b][i - 1] }
            },
    )
}

/// The steps that make the first `j` blocks.
pub open spec fn openings(n: Numbers, j: nat) -> Seq<Step>
    decreases j,
{
    if j == 0 {
        Seq::empty()
    } else {
        openings(n, (j - 1) as nat) + opening(n, j - 1)
    }
}

/// The steps that hand over the first `k` instructions of a block.
pub open spec fn block_part(n: Numbers, l: Links, f: crate::ir::FuncV, b: int, k: nat) -> Seq<Step> {
    Seq::new(
        k + 1,
        |i: int|
            if i == 0 {
                Step::Switch { block: n.blocks[b] }
            } else {
                step(n, l, number_at(n, b, i - 1), f.blocks[b].insts[i - 1])
            },
    )
}

/// The steps that hand over a block.
pub open spec fn block_steps(n: Numbers, l: Links, f: crate::ir::FuncV, b: int) -> Seq<Step> {
    block_part(n, l, f, b, f.blocks[b].insts.len()).push(end_step(n, f.blocks[b].term->0))
}

/// The steps that hand over the first `j` blocks of an order, all having been made.
pub open spec fn func_steps(n: Numbers, l: Links, f: crate::ir::FuncV, order: Seq<usize>, j: nat) -> Seq<Step>
    decreases j,
{
    if j == 0 {
        openings(n, f.blocks.len())
    } else {
        func_steps(n, l, f, order, (j - 1) as nat) + block_steps(n, l, f, order[j - 1] as int)
    }
}

/// How many steps make the first `j` blocks.
pub open spec fn openings_len(f: crate::ir::FuncV, j: nat) -> nat
    decreases j,
{
    if j == 0 {
        0
    } else {
        openings_len(f, (j - 1) as nat) + f.blocks[j - 1].params as nat + 1
    }
}

/// How many steps hand over the first `j` blocks of an order.
pub open spec fn func_len(f: crate::ir::FuncV, order: Seq<usize>, j: nat) -> nat
    decreases j,
{
    if j == 0 {
        openings_len(f, f.blocks.len())
    } else {
        func_len(f, order, (j - 1) as nat) + f.blocks[order[j - 1] as int].insts.len() + 2
    }
}

/// Some numbering in which the first `k` instructions of a block have numbers.
pub open spec fn after_part(n: Numbers, f: crate::ir::FuncV, b: int, k: nat) -> Numbers {
    Numbers {
        blocks: n.blocks,
        params: n.params,
        insts: n.insts.update(
            b,
            Seq::new(
                k,
                |i: int|
                    if gives_value(f.blocks[b].insts[i]) {
                        Some(0u32)
                    } else {
                        None
                    },
            ),
        ),
    }
}

/// Some numbering of the blocks of a function and their parameters.
pub open spec fn at_start(f: crate::ir::FuncV) -> Numbers {
    Numbers {
        blocks: Seq::new(f.blocks.len(), |b: int| 0u32),
        params: Seq::new(f.blocks.len(), |b: int| Seq::new(f.blocks[b].params as nat, |i: int| 0u32)),
        insts: Seq::new(f.blocks.len(), |b: int| Seq::empty()),
    }
}

/// Some numbering in which the first `j` blocks of an order have numbers.
pub open spec fn after_blocks(f: crate::ir::FuncV, order: Seq<usize>, j: nat) -> Numbers
    decreases j,
{
    if j == 0 {
        at_start(f)
    } else {
        let b = order[j - 1] as int;
        after_part(after_blocks(f, order, (j - 1) as nat), f, b, f.blocks[b].insts.len())
    }
}

/// Whether a block can be handed over: each instruction, and how it ends, refers
/// only to what came before.
pub open spec fn block_fits(n: Numbers, l: Links, f: crate::ir::FuncV, b: int) -> bool {
    let block = f.blocks[b];
    &&& forall|k: int|
        0 <= k < block.insts.len() ==> can_step(after_part(n, f, b, k as nat), l, #[trigger] block.insts[k])
    &&& block.term is Some
    &&& can_end(after_part(n, f, b, block.insts.len()), block.term->0)
}

/// Whether a block is in an order.
pub open spec fn comes_up(order: Seq<usize>, b: int) -> bool {
    exists|j: int| 0 <= j < order.len() && #[trigger] order[j] == b
}

/// Whether an order has every block once, the first block first.
pub open spec fn order_fits(f: crate::ir::FuncV, order: Seq<usize>) -> bool {
    &&& order.len() == f.blocks.len()
    &&& order.len() > 0
    &&& order[0] == 0
    &&& forall|b: int| 0 <= b < f.blocks.len() ==> #[trigger] comes_up(order, b)
    &&& forall|j: int| 0 <= j < order.len() ==> #[trigger] order[j] < f.blocks.len()
    &&& forall|i: int, j: int| 0 <= i < j < order.len() ==> #[trigger] order[i] != #[trigger] order[j]
}

/// Whether no block has more parameters than one can have.
pub open spec fn few_params(f: crate::ir::FuncV) -> bool {
    forall|b: int| 0 <= b < f.blocks.len() ==> (#[trigger] f.blocks[b]).params <= MAX_PARAMS
}

/// Whether a function can be handed over in an order.
pub open spec fn can_lower(l: Links, f: crate::ir::FuncV, order: Seq<usize>) -> bool {
    &&& order_fits(f, order)
    &&& few_params(f)
    &&& func_len(f, order, order.len()) <= MAX_STEPS
    &&& forall|j: int|
        0 <= j < order.len() ==> block_fits(
            after_blocks(f, order, j as nat),
            l,
            f,
            #[trigger] order[j] as int,
        )
}

/// Whether a function can be handed over where there are that many functions for it
/// to call: each instruction refers to what comes before it, its constants fit, and
/// there is not too much of it.
pub open spec fn fit(f: crate::ir::FuncV, funcs: nat) -> bool {
    can_lower(
        Links {
            keys: Seq::new(f.keys.len(), |k: int| 0u64),
            shims: Seq::empty(),
            funcs: Seq::new(funcs, |k: int| 0u32),
        },
        f,
        f.order,
    )
}

/// What can be handed over rests on how many keys and functions there are alone.
pub(crate) proof fn lemma_fit(l: Links, f: crate::ir::FuncV)
    requires
        l.keys.len() == f.keys.len(),
    ensures
        fit(f, l.funcs.len()) <==> can_lower(l, f, f.order),
{
    let order = f.order;
    let o = Links {
        keys: Seq::new(f.keys.len(), |k: int| 0u64),
        shims: Seq::empty(),
        funcs: Seq::new(l.funcs.len(), |k: int| 0u32),
    };
    reveal(can_step);
    assert forall|n: Numbers, b: int| block_fits(n, l, f, b) == #[trigger] block_fits(n, o, f, b) by {
        assert forall|k: int| 0 <= k < f.blocks[b].insts.len() implies can_step(
            after_part(n, f, b, k as nat),
            l,
            #[trigger] f.blocks[b].insts[k],
        ) == can_step(after_part(n, f, b, k as nat), o, f.blocks[b].insts[k]) by {}
    }
    assert forall|j: int| 0 <= j < order.len() implies block_fits(
        after_blocks(f, order, j as nat),
        l,
        f,
        #[trigger] order[j] as int,
    ) == block_fits(after_blocks(f, order, j as nat), o, f, order[j] as int) by {}
}

/// Whether two numberings have numbers for the same things.
pub open spec fn same_shape(n: Numbers, q: Numbers) -> bool {
    &&& n.blocks.len() == q.blocks.len()
    &&& n.params.len() == q.params.len()
    &&& n.insts.len() == q.insts.len()
    &&& forall|b: int|
        0 <= b < n.params.len() ==> (#[trigger] n.params[b]).len() == q.params[b].len()
    &&& forall|b: int| 0 <= b < n.insts.len() ==> (#[trigger] n.insts[b]).len() == q.insts[b].len()
    &&& forall|b: int, k: int|
        0 <= b < n.insts.len() && 0 <= k < n.insts[b].len() ==> ((#[trigger] n.insts[b][k]) is Some
            <==> q.insts[b][k] is Some)
}

/// Whether no two values, and no two blocks, have one number.
pub open spec fn one_to_one(n: Numbers) -> bool {
    &&& forall|u: Value, v: Value|
        known(n, u) && known(n, v) && u != v ==> #[trigger] num(n, u) != #[trigger] num(n, v)
    &&& forall|i: int, j: int|
        0 <= i < j < n.blocks.len() ==> #[trigger] n.blocks[i] != #[trigger] n.blocks[j]
}

/// Whether a numbering is one of all blocks and values of a function, each with a
/// number of its own.
pub open spec fn numbers_all(n: Numbers, f: crate::ir::FuncV) -> bool {
    &&& n.blocks.len() == f.blocks.len()
    &&& n.params.len() == f.blocks.len()
    &&& n.insts.len() == f.blocks.len()
    &&& forall|b: int|
        0 <= b < f.blocks.len() ==> (#[trigger] n.params[b]).len() == f.blocks[b].params
    &&& forall|b: int|
        0 <= b < f.blocks.len() ==> (#[trigger] n.insts[b]).len() == f.blocks[b].insts.len()
    &&& forall|b: int, k: int|
        0 <= b < f.blocks.len() && 0 <= k < n.insts[b].len() ==> ((#[trigger] n.insts[b][k]) is Some
            <==> gives_value(f.blocks[b].insts[k]))
    &&& one_to_one(n)
}

/// Whether one numbering goes on from another.
pub open spec fn goes_on(n: Numbers, q: Numbers) -> bool {
    &&& n.blocks == q.blocks
    &&& n.params == q.params
    &&& n.insts.len() == q.insts.len()
    &&& forall|b: int|
        0 <= b < n.insts.len() ==> (#[trigger] n.insts[b]).len() <= q.insts[b].len()
    &&& forall|b: int, k: int|
        0 <= b < n.insts.len() && 0 <= k < n.insts[b].len() ==> #[trigger] q.insts[b][k] == n.insts[b][k]
}

proof fn lemma_goes_on(n: Numbers, q: Numbers, l: Links, r: u32, i: Inst)
    requires
        goes_on(n, q),
        can_step(n, l, i),
    ensures
        step(q, l, r, i) == step(n, l, r, i),
        can_step(q, l, i),
{
    reveal(can_step);
    reveal(step);
    assert forall|v: Value| known(n, v) implies known(q, v) && #[trigger] num(q, v) == num(n, v) by {
        match v {
            Value::Param(b, p) => {},
            Value::Inst(b, k) => {
                assert(q.insts[b as int][k as int] == n.insts[b as int][k as int]);
            },
        }
    }
}

proof fn lemma_goes_on_end(n: Numbers, q: Numbers, t: Term)
    requires
        goes_on(n, q),
        can_end(n, t),
    ensures
        end_step(q, t) == end_step(n, t),
        can_end(q, t),
{
    reveal(can_end);
    reveal(end_step);
    assert forall|v: Value| known(n, v) implies known(q, v) && #[trigger] num(q, v) == num(n, v) by {
        match v {
            Value::Param(b, p) => {},
            Value::Inst(b, k) => {
                assert(q.insts[b as int][k as int] == n.insts[b as int][k as int]);
            },
        }
    }
}

/// Whether a block has been handed over as far as its numbers go: all that it refers
/// to has a number.
pub open spec fn block_done(n: Numbers, l: Links, f: crate::ir::FuncV, b: int) -> bool {
    let block = f.blocks[b];
    &&& 0 <= b < n.insts.len()
    &&& n.insts[b].len() == block.insts.len()
    &&& forall|k: int| 0 <= k < block.insts.len() ==> can_step(n, l, #[trigger] block.insts[k])
    &&& block.term is Some
    &&& can_end(n, block.term->0)
}

proof fn lemma_part_goes_on(n: Numbers, q: Numbers, l: Links, f: crate::ir::FuncV, b: int, k: nat)
    requires
        goes_on(n, q),
        0 <= b < n.insts.len(),
        k <= n.insts[b].len(),
        k <= f.blocks[b].insts.len(),
        forall|i: int| 0 <= i < k ==> can_step(n, l, #[trigger] f.blocks[b].insts[i]),
    ensures
        block_part(q, l, f, b, k) == block_part(n, l, f, b, k),
        forall|i: int| 0 <= i < k ==> can_step(q, l, #[trigger] f.blocks[b].insts[i]),
{
    assert forall|i: int| 0 <= i < k implies can_step(q, l, #[trigger] f.blocks[b].insts[i]) && step(
        q,
        l,
        number_at(q, b, i),
        f.blocks[b].insts[i],
    ) == step(n, l, number_at(n, b, i), f.blocks[b].insts[i]) by {
        assert(q.insts[b][i] == n.insts[b][i]);
        lemma_goes_on(n, q, l, number_at(n, b, i), f.blocks[b].insts[i]);
    }
    assert forall|i: int| 0 <= i < k + 1 implies block_part(q, l, f, b, k)[i] == block_part(n, l, f, b, k)[i] by {
        if i > 0 {
            let _ = f.blocks[b].insts[i - 1];
        }
    }
    assert(block_part(q, l, f, b, k) =~= block_part(n, l, f, b, k));
}

proof fn lemma_openings(n: Numbers, q: Numbers, j: nat)
    requires
        j <= n.blocks.len(),
        j <= n.params.len(),
        n.blocks.len() <= q.blocks.len(),
        n.params.len() <= q.params.len(),
        forall|b: int| 0 <= b < j ==> #[trigger] q.blocks[b] == n.blocks[b],
        forall|b: int| 0 <= b < j ==> #[trigger] q.params[b] == n.params[b],
    ensures
        openings(q, j) == openings(n, j),
    decreases j,
{
    if j > 0 {
        lemma_openings(n, q, (j - 1) as nat);
        assert(q.blocks[j - 1] == n.blocks[j - 1]);
        assert(q.params[j - 1] == n.params[j - 1]);
        assert(opening(q, j - 1) =~= opening(n, j - 1));
    }
}

proof fn lemma_func_goes_on(n: Numbers, q: Numbers, l: Links, f: crate::ir::FuncV, order: Seq<usize>, j: nat)
    requires
        goes_on(n, q),
        n.blocks.len() == f.blocks.len(),
        n.params.len() == f.blocks.len(),
        j <= order.len(),
        forall|b: int|
            0 <= b < n.insts.len() ==> (#[trigger] q.insts[b]).len() <= f.blocks[b].insts.len(),
        forall|i: int| 0 <= i < j ==> block_done(n, l, f, #[trigger] order[i] as int),
    ensures
        func_steps(q, l, f, order, j) == func_steps(n, l, f, order, j),
        forall|i: int| 0 <= i < j ==> block_done(q, l, f, #[trigger] order[i] as int),
    decreases j,
{
    if j == 0 {
        lemma_openings(n, q, f.blocks.len());
    } else {
        lemma_func_goes_on(n, q, l, f, order, (j - 1) as nat);
        let b = order[j - 1] as int;
        let k = f.blocks[b].insts.len();
        lemma_part_goes_on(n, q, l, f, b, k);
        lemma_goes_on_end(n, q, f.blocks[b].term->0);
        assert(q.insts[b].len() >= n.insts[b].len());
        assert forall|i: int| 0 <= i < j implies block_done(q, l, f, #[trigger] order[i] as int) by {
            if i == j - 1 {
            }
        }
    }
}

proof fn lemma_same_shape(n: Numbers, q: Numbers, l: Links, f: crate::ir::FuncV, b: int)
    requires
        same_shape(n, q),
        0 <= b < n.insts.len(),
    ensures
        block_fits(n, l, f, b) == block_fits(q, l, f, b),
{
    assert forall|k: int| 0 <= k < f.blocks[b].insts.len() implies can_step(
        after_part(n, f, b, k as nat),
        l,
        #[trigger] f.blocks[b].insts[k],
    ) == can_step(after_part(q, f, b, k as nat), l, f.blocks[b].insts[k]) by {
        lemma_shape(after_part(n, f, b, k as nat), after_part(q, f, b, k as nat));
    }
    let k = f.blocks[b].insts.len();
    lemma_shape(after_part(n, f, b, k), after_part(q, f, b, k));
}

proof fn lemma_shape(n: Numbers, q: Numbers)
    requires
        same_shape(n, q),
    ensures
        forall|v: Value| #[trigger] known(n, v) == known(q, v),
        forall|l: Links, i: Inst| #[trigger] can_step(n, l, i) == can_step(q, l, i),
        forall|t: Term| #[trigger] can_end(n, t) == can_end(q, t),
{
    reveal(can_step);
    reveal(can_end);
    assert forall|v: Value| #[trigger] known(n, v) == known(q, v) by {
        match v {
            Value::Param(b, p) => {
                if b < n.params.len() {
                    let _ = n.params[b as int];
                }
            },
            Value::Inst(b, k) => {
                if b < n.insts.len() {
                    let _ = n.insts[b as int];
                    if k < n.insts[b as int].len() {
                        let _ = n.insts[b as int][k as int];
                    }
                }
            },
        }
    }
}

proof fn lemma_func_len(f: crate::ir::FuncV, order: Seq<usize>, i: nat, j: nat)
    requires
        i <= j,
    ensures
        func_len(f, order, i) <= func_len(f, order, j),
    decreases j,
{
    if i < j {
        lemma_func_len(f, order, i, (j - 1) as nat);
    }
}

proof fn lemma_openings_len(f: crate::ir::FuncV, i: nat, j: nat)
    requires
        i <= j,
    ensures
        openings_len(f, i) <= openings_len(f, j),
    decreases j,
{
    if i < j {
        lemma_openings_len(f, i, (j - 1) as nat);
    }
}

/// Whether a numbering is one of the blocks of a function, their parameters, and
/// some of their instructions.
spec fn part_of(n: Numbers, f: crate::ir::FuncV) -> bool {
    &&& n.blocks.len() == f.blocks.len()
    &&& n.params.len() == f.blocks.len()
    &&& n.insts.len() == f.blocks.len()
    &&& forall|b: int|
        0 <= b < n.insts.len() ==> (#[trigger] n.insts[b]).len() <= f.blocks[b].insts.len()
}

proof fn lemma_one_more(n: Numbers, q: Numbers, b: int, r: Option<u32>, have: Set<u32>)
    requires
        one_to_one(n),
        0 <= b < n.insts.len(),
        q == (Numbers { insts: n.insts.update(b, n.insts[b].push(r)), ..n }),
        forall|v: Value| #[trigger] known(n, v) ==> have.contains(num(n, v)),
        r is Some ==> !have.contains(r->0),
    ensures
        goes_on(n, q),
        one_to_one(q),
        forall|v: Value| #[trigger] known(q, v) ==> known(n, v) && num(q, v) == num(n, v) || (r is Some && num(
            q,
            v,
        ) == r->0),
{
    let k = n.insts[b].len();
    assert(goes_on(n, q));
    assert forall|v: Value| #[trigger] known(q, v) implies known(n, v) && num(q, v) == num(n, v) || (r is Some
        && num(q, v) == r->0 && v == Value::Inst(b as usize, k as usize)) by {
        match v {
            Value::Param(c, p) => {},
            Value::Inst(c, i) => {
                if c == b && i == k {
                } else {
                    assert(q.insts[c as int][i as int] == n.insts[c as int][i as int]);
                }
            },
        }
    }
    assert forall|u: Value, v: Value| known(q, u) && known(q, v) && u != v implies #[trigger] num(q, u)
        != #[trigger] num(q, v) by {
        let _ = known(n, u);
        let _ = known(n, v);
    }
}

/// One instruction more.
proof fn lemma_next(n0: Numbers, n: Numbers, q: Numbers, l: Links, f: crate::ir::FuncV, at: int, k: nat, x: Option<u32>)
    requires
        0 <= at < f.blocks.len(),
        k < f.blocks[at].insts.len(),
        part_of(n0, f),
        part_of(n, f),
        goes_on(n0, n),
        goes_on(n, q),
        n0.insts[at].len() == 0,
        n.insts[at].len() == k,
        same_shape(n, after_part(n0, f, at, k)),
        q == (Numbers { insts: n.insts.update(at, n.insts[at].push(x)), ..n }),
        x is Some <==> gives_value(f.blocks[at].insts[k as int]),
        can_step(n, l, f.blocks[at].insts[k as int]),
        forall|i: int| 0 <= i < k ==> can_step(n, l, #[trigger] f.blocks[at].insts[i]),
    ensures
        goes_on(n0, q),
        part_of(q, f),
        same_shape(q, after_part(n0, f, at, k + 1)),
        forall|i: int| 0 <= i < k + 1 ==> can_step(q, l, #[trigger] f.blocks[at].insts[i]),
        block_part(q, l, f, at, k + 1) == block_part(n, l, f, at, k).push(
            step(n, l, number_at(q, at, k as int), f.blocks[at].insts[k as int]),
        ),
{
    lemma_part_goes_on(n, q, l, f, at, k);
    lemma_goes_on(n, q, l, number_at(q, at, k as int), f.blocks[at].insts[k as int]);
    assert(block_part(q, l, f, at, k + 1) =~= block_part(q, l, f, at, k).push(
        step(q, l, number_at(q, at, k as int), f.blocks[at].insts[k as int]),
    ));
    let a = after_part(n0, f, at, k);
    let c = after_part(n0, f, at, k + 1);
    assert forall|b: int| 0 <= b < q.insts.len() implies (#[trigger] q.insts[b]).len() == c.insts[b].len() by {
        assert(n.insts[b].len() == a.insts[b].len());
    }
    assert forall|b: int, i: int| 0 <= b < q.insts.len() && 0 <= i < q.insts[b].len() implies ((
    #[trigger] q.insts[b][i]) is Some <==> c.insts[b][i] is Some) by {
        if b == at && i == k {
        } else {
            assert(n.insts[b].len() == a.insts[b].len());
            assert(n.insts[b][i] is Some <==> a.insts[b][i] is Some);
        }
    }
    assert forall|b: int, i: int| 0 <= b < n0.insts.len() && 0 <= i < n0.insts[b].len() implies #[trigger] q.insts[b][i]
        == n0.insts[b][i] by {
        assert(n.insts[b][i] == n0.insts[b][i]);
    }
    assert forall|b: int| 0 <= b < n0.insts.len() implies (#[trigger] n0.insts[b]).len() <= q.insts[b].len() by {
        assert(n.insts[b].len() <= q.insts[b].len());
    }
}

/// Hands over a block.
#[verifier::spinoff_prover]
#[verifier::rlimit(60)]
fn lower_block(
    m: &mut JITModule,
    b: &mut FunctionBuilder<'static>,
    t: &mut Table,
    l: &Refs,
    f: &FuncIr,
    at: usize,
) -> (r: bool)
    requires
        at < f.blocks@.len(),
        part_of(old(t)@, f@),
        old(t)@.insts[at as int].len() == 0,
        one_to_one(old(t)@),
        within(old(t)@, *old(b)),
        outside(steps_of(*old(b))),
        steps_of(*old(b)).len() + f@.blocks[at as int].insts.len() + 2 <= MAX_STEPS,
        blank_of(*old(b)).contains(old(t)@.blocks[at as int]),
        l.stand_in(*old(m)),
    ensures
        same_module(*old(m), *final(m)),
        r == block_fits(old(t)@, l.links(), f@, at as int),
        r ==> sig_in(*final(b)) == sig_in(*old(b)),
        r ==> {
            &&& goes_on(old(t)@, final(t)@)
            &&& part_of(final(t)@, f@)
            &&& one_to_one(final(t)@)
            &&& within(final(t)@, *final(b))
            &&& same_shape(
                final(t)@,
                after_part(old(t)@, f@, at as int, f@.blocks[at as int].insts.len()),
            )
            &&& block_done(final(t)@, l.links(), f@, at as int)
            &&& steps_of(*final(b)) == steps_of(*old(b)) + block_steps(final(t)@, l.links(), f@, at as int)
            &&& outside(steps_of(*final(b)))
            &&& blank_of(*final(b)) == blank_of(*old(b)).remove(old(t)@.blocks[at as int])
            &&& forall|c: int|
                0 <= c < f@.blocks.len() && c != at ==> #[trigger] final(t)@.insts[c] == old(t)@.insts[c]
        },
{
    let ghost n0 = t@;
    let ghost b0 = *b;
    let ghost block = f@.blocks[at as int];
    assert(block == f.blocks@[at as int]@);
    assert(t@.blocks[at as int] == t.blocks@[at as int]);
    switch_to_block(b, t.blocks[at]);
    assert(steps_of(*b) =~= steps_of(b0) + block_part(t@, l.links(), f@, at as int, 0));
    let mut k: usize = 0;
    while k < f.blocks[at].insts.len()
        invariant
            at < f.blocks@.len(),
            block == f@.blocks[at as int],
            block == f.blocks@[at as int]@,
            n0 == old(t)@,
            k <= block.insts.len(),
            part_of(n0, f@),
            goes_on(n0, t@),
            part_of(t@, f@),
            one_to_one(t@),
            within(t@, *b),
            n0.insts[at as int].len() == 0,
            t@.insts[at as int].len() == k,
            same_shape(t@, after_part(n0, f@, at as int, k as nat)),
            forall|c: int|
                0 <= c < f@.blocks.len() && c != at ==> #[trigger] t@.insts[c] == n0.insts[c],
            inside(steps_of(*b)),
            steps_of(*b) == steps_of(b0) + block_part(t@, l.links(), f@, at as int, k as nat),
            steps_of(b0).len() + block.insts.len() + 2 <= MAX_STEPS,
            blank_of(*b) == blank_of(b0).remove(n0.blocks[at as int]),
            sig_in(*b) == sig_in(b0),
            l.stand_in(*m),
            same_module(*old(m), *m),
            forall|i: int| 0 <= i < k ==> can_step(t@, l.links(), #[trigger] block.insts[i]),
            forall|i: int|
                0 <= i < k ==> can_step(
                    after_part(n0, f@, at as int, i as nat),
                    l.links(),
                    #[trigger] block.insts[i],
                ),
        decreases block.insts.len() - k,
    {
        let i = f.blocks[at].insts[k];
        let ghost n = t@;
        let ghost b1 = *b;
        proof {
            lemma_shape(n, after_part(n0, f@, at as int, k as nat));
            assert(block.insts[k as int] == i);
        }
        let r = lower_inst(m, b, t, l, i);
        match r {
            None => {
                return false;
            },
            Some(x) => {
                t.insts[at].push(x);
                proof {
                    assert(t@.insts =~= n.insts.update(at as int, n.insts[at as int].push(x)));
                    lemma_one_more(n, t@, at as int, x, values_of(b1));
                    lemma_goes_inside(n, l.links(), number_at(t@, at as int, k as int), i);
                    lemma_next(n0, n, t@, l.links(), f@, at as int, k as nat, x);
                    assert(steps_of(*b) =~= steps_of(b0) + block_part(
                        t@,
                        l.links(),
                        f@,
                        at as int,
                        (k + 1) as nat,
                    ));
                }
            },
        }
        k += 1;
    }
    proof {
        lemma_shape(t@, after_part(n0, f@, at as int, k as nat));
    }
    match f.blocks[at].term {
        Some(term) => {
            let r = lower_term(b, t, term);
            proof {
                if r {
                    lemma_goes_out(t@, term);
                    assert(steps_of(*b) =~= steps_of(b0) + block_steps(t@, l.links(), f@, at as int));
                }
            }
            r
        },
        None => false,
    }
}

proof fn lemma_with_block(n: Numbers, q: Numbers, r: u32, ps: Seq<u32>, have: Set<u32>)
    requires
        one_to_one(n),
        n.params.len() == n.blocks.len(),
        q.blocks == n.blocks.push(r),
        q.params == n.params.push(ps),
        q.insts == n.insts.push(Seq::empty()),
        n.blocks.len() <= usize::MAX,
        forall|v: Value| #[trigger] known(n, v) ==> have.contains(num(n, v)),
        forall|k: int| 0 <= k < n.blocks.len() ==> #[trigger] n.blocks[k] != r,
        forall|i: int| 0 <= i < ps.len() ==> !have.contains(#[trigger] ps[i]),
        forall|i: int, j: int| 0 <= i < j < ps.len() ==> #[trigger] ps[i] != #[trigger] ps[j],
    ensures
        one_to_one(q),
        openings(q, n.blocks.len()) == openings(n, n.blocks.len()),
        forall|v: Value| #[trigger] known(q, v) ==> known(n, v) && num(q, v) == num(n, v) || ps.contains(num(q, v)),
{
    lemma_openings(n, q, n.blocks.len());
    let last = n.params.len() as int;
    assert forall|v: Value| #[trigger] known(q, v) implies (known(n, v) && num(q, v) == num(n, v)) || (
    v is Param && v->Param_0 == last && v->Param_1 < ps.len() && num(q, v) == ps[v->Param_1 as int]) by {
        match v {
            Value::Param(b, p) => {
                if b < last {
                    assert(q.params[b as int] == n.params[b as int]);
                }
            },
            Value::Inst(b, k) => {
                if b < n.insts.len() {
                    assert(q.insts[b as int] == n.insts[b as int]);
                }
            },
        }
    }
    assert forall|u: Value, v: Value| known(q, u) && known(q, v) && u != v implies #[trigger] num(q, u)
        != #[trigger] num(q, v) by {
        let _ = known(n, u);
        let _ = known(n, v);
    }
}

/// The parameters among the steps that make blocks are those of these blocks.
proof fn lemma_openings_params(n: Numbers, j: nat, block: u32)
    requires
        forall|c: int| 0 <= c < j ==> #[trigger] n.blocks[c] != block,
    ensures
        forall|k: int|
            0 <= k < openings(n, j).len() ==> !((#[trigger] openings(n, j)[k]) matches Step::Param { block: c, .. }
                && c == block),
    decreases j,
{
    if j > 0 {
        lemma_openings_params(n, (j - 1) as nat, block);
        let a = openings(n, (j - 1) as nat);
        assert forall|k: int| 0 <= k < openings(n, j).len() implies !((#[trigger] openings(n, j)[k]) matches Step::Param {
            block: c,
            ..
        } && c == block) by {
            if k < a.len() {
                assert(openings(n, j)[k] == a[k]);
            } else {
                assert(openings(n, j)[k] == opening(n, j - 1)[k - a.len()]);
                assert(n.blocks[j - 1] != block);
            }
        }
    }
}

/// Makes the blocks of a function, and their parameters.
#[verifier::spinoff_prover]
#[verifier::rlimit(60)]
fn make_blocks(b: &mut FunctionBuilder<'static>, f: &FuncIr) -> (r: Option<(Table, usize)>)
    requires
        steps_of(*old(b)) == Seq::<Step>::empty(),
        blank_of(*old(b)) == blocks_of(*old(b)),
    ensures
        r is Some <==> openings_len(f@, f@.blocks.len()) <= MAX_STEPS && few_params(f@),
        r matches Some((t, used)) ==> {
            &&& used == openings_len(f@, f@.blocks.len())
            &&& same_shape(t@, at_start(f@))
            &&& part_of(t@, f@)
            &&& one_to_one(t@)
            &&& within(t@, *final(b))
            &&& sig_in(*final(b)) == sig_in(*old(b))
            &&& outside(steps_of(*final(b)))
            &&& steps_of(*final(b)) == openings(t@, f@.blocks.len())
            &&& steps_of(*final(b)).len() == openings_len(f@, f@.blocks.len())
            &&& forall|k: int|
                0 <= k < t@.blocks.len() ==> blank_of(*final(b)).contains(#[trigger] t@.blocks[k])
        },
{
    let mut t = Table { blocks: Vec::new(), params: Vec::new(), insts: Vec::new() };
    let mut used: usize = 0;
    let mut at: usize = 0;
    while at < f.blocks.len()
        invariant
            at <= f.blocks@.len(),
            used == openings_len(f@, at as nat),
            used == steps_of(*b).len(),
            used <= MAX_STEPS,
            forall|c: int| 0 <= c < at ==> (#[trigger] f@.blocks[c]).params <= MAX_PARAMS,
            t@.blocks.len() == at,
            t@.params.len() == at,
            t@.insts.len() == at,
            forall|c: int| 0 <= c < at ==> (#[trigger] t@.params[c]).len() == f@.blocks[c].params,
            forall|c: int| 0 <= c < at ==> (#[trigger] t@.insts[c]).len() == 0,
            one_to_one(t@),
            within(t@, *b),
            outside(steps_of(*b)),
            steps_of(*b) == openings(t@, at as nat),
            blank_of(*b) == blocks_of(*b),
            sig_in(*b) == sig_in(*old(b)),
        decreases f.blocks.len() - at,
    {
        let params = f.blocks[at].params;
        assert(params == f@.blocks[at as int].params);
        proof {
            lemma_openings_len(f@, (at + 1) as nat, f@.blocks.len());
        }
        if params > MAX_PARAMS || used > MAX_STEPS - 1 - params {
            return None;
        }
        let ghost n = t@;
        let ghost b0 = *b;
        let block = create_block(b);
        proof {
            assert forall|c: int| 0 <= c < at implies #[trigger] n.blocks[c] != block by {
                assert(blocks_of(b0).contains(n.blocks[c]));
            }
            lemma_openings_params(n, at as nat, block);
            lemma_no_params(steps_of(b0), block);
            lemma_params_push(steps_of(b0), Step::NewBlock { r: block }, block);
        }
        let mut ps: Vec<u32> = Vec::new();
        let mut i: usize = 0;
        while i < params
            invariant
                i <= params,
                ps@.len() == i,
                used + 1 + params <= MAX_STEPS,
                params <= MAX_PARAMS,
                params_in(steps_of(*b), block) == i,
                steps_of(b0).len() == used,
                steps_of(*b) == steps_of(b0) + Seq::new(
                    (i + 1) as nat,
                    |j: int|
                        if j == 0 {
                            Step::NewBlock { r: block }
                        } else {
                            Step::Param { block, r: ps@[j - 1] }
                        },
                ),
                outside(steps_of(*b)),
                blank_of(*b).contains(block),
                blank_of(*b) == blocks_of(*b),
                sig_in(*b) == sig_in(b0),
                blocks_of(*b) == blocks_of(b0).insert(block),
                forall|v: u32| values_of(b0).contains(v) ==> #[trigger] values_of(*b).contains(v),
                all_in(ps@, values_of(*b)),
                forall|j: int| 0 <= j < i ==> !values_of(b0).contains(#[trigger] ps@[j]),
                forall|j: int, k: int| 0 <= j < k < i ==> #[trigger] ps@[j] != #[trigger] ps@[k],
            decreases params - i,
        {
            let ghost s = steps_of(*b);
            let ghost before = ps@;
            let v = append_block_param(b, block);
            ps.push(v);
            proof {
                lemma_params_push(s, Step::Param { block, r: v }, block);
                assert forall|j: int| 0 <= j < i implies #[trigger] ps@[j] == before[j] by {}
                assert(steps_of(*b) =~= steps_of(b0) + Seq::new(
                    (i + 2) as nat,
                    |j: int|
                        if j == 0 {
                            Step::NewBlock { r: block }
                        } else {
                            Step::Param { block, r: ps@[j - 1] }
                        },
                ));
            }
            i += 1;
        }
        let ghost ps0 = ps@;
        t.blocks.push(block);
        t.params.push(ps);
        t.insts.push(Vec::new());
        proof {
            assert(t@.blocks =~= n.blocks.push(block));
            assert(t@.params =~= n.params.push(ps0));
            assert(t@.insts =~= n.insts.push(Seq::empty()));
            lemma_with_block(n, t@, block, ps0, values_of(b0));
            assert(opening(t@, at as int) =~= Seq::new(
                (params + 1) as nat,
                |j: int|
                    if j == 0 {
                        Step::NewBlock { r: block }
                    } else {
                        Step::Param { block, r: ps0[j - 1] }
                    },
            ));
            assert(steps_of(*b) =~= openings(t@, (at + 1) as nat));
        }
        used = used + 1 + params;
        at += 1;
    }
    Some((t, used))
}

/// One block more of an order.
proof fn lemma_after_block(n: Numbers, q: Numbers, l: Links, f: crate::ir::FuncV, order: Seq<usize>, j: nat)
    requires
        j < order.len(),
        order[j as int] < f.blocks.len(),
        part_of(n, f),
        part_of(q, f),
        goes_on(n, q),
        same_shape(n, after_blocks(f, order, j)),
        same_shape(
            q,
            after_part(n, f, order[j as int] as int, f.blocks[order[j as int] as int].insts.len()),
        ),
        forall|i: int| 0 <= i < j ==> block_done(n, l, f, #[trigger] order[i] as int),
    ensures
        same_shape(q, after_blocks(f, order, j + 1)),
        func_steps(q, l, f, order, j) == func_steps(n, l, f, order, j),
        forall|i: int| 0 <= i < j ==> block_done(q, l, f, #[trigger] order[i] as int),
{
    lemma_func_goes_on(n, q, l, f, order, j);
    let b = order[j as int] as int;
    let k = f.blocks[b].insts.len();
    let a = after_blocks(f, order, j);
    let x = after_part(n, f, b, k);
    let y = after_part(a, f, b, k);
    assert(y == after_blocks(f, order, j + 1));
    assert forall|c: int| 0 <= c < q.params.len() implies (#[trigger] q.params[c]).len() == y.params[c].len() by {
        assert(n.params[c].len() == a.params[c].len());
        assert(q.params[c].len() == x.params[c].len());
    }
    assert forall|c: int| 0 <= c < q.insts.len() implies (#[trigger] q.insts[c]).len() == y.insts[c].len() by {
        assert(n.insts[c].len() == a.insts[c].len());
    }
    assert forall|c: int, i: int| 0 <= c < q.insts.len() && 0 <= i < q.insts[c].len() implies ((
    #[trigger] q.insts[c][i]) is Some <==> y.insts[c][i] is Some) by {
        assert(q.insts[c].len() == x.insts[c].len());
        if c != b {
            assert(n.insts[c][i] is Some <==> a.insts[c][i] is Some);
        }
    }
}

/// The result of [`lower`]: a function in cranelift's form, and how its blocks and
/// values are numbered there.
pub struct Lowered {
    pub func: clif::Function,
    pub numbers: Ghost<Numbers>,
}

/// How many bytes cranelift gives a value: what an instruction gives has the width
/// that the instruction says, or that of its first operand, followed `n` times at
/// most.
pub open spec fn value_width(f: crate::ir::FuncV, v: Value, n: nat) -> Option<u8>
    decreases n,
{
    match v {
        Value::Param(b, p) => Some(8),
        Value::Inst(b, k) => if b < f.blocks.len() && k < f.blocks[b as int].insts.len() {
            match f.blocks[b as int].insts[k as int] {
                Inst::Iconst(_) => Some(8),
                Inst::False => Some(1),
                Inst::Key(_) => Some(8),
                Inst::Scratch => Some(8),
                Inst::Test(_, _, _) => Some(1),
                Inst::TestImm(_, _, _) => Some(1),
                Inst::Uextend(_) => Some(8),
                Inst::Ireduce(width, _) => Some(width),
                Inst::Load { width, .. } => Some(width),
                Inst::Store { .. } => None,
                Inst::MapNew { .. } => None,
                Inst::MapInsert { .. } => None,
                Inst::Bitcast(_) => Some(8),
                Inst::Fdemote(_) => Some(4),
                Inst::Call(_, _) => Some(8),
                Inst::CallFn { .. } => Some(8),
                Inst::Iadd(x, _) => if n == 0 { None } else { value_width(f, x, (n - 1) as nat) },
                Inst::Isub(x, _) => if n == 0 { None } else { value_width(f, x, (n - 1) as nat) },
                Inst::Imul(x, _) => if n == 0 { None } else { value_width(f, x, (n - 1) as nat) },
                Inst::Bor(x, _) => if n == 0 { None } else { value_width(f, x, (n - 1) as nat) },
                Inst::Band(x, _) => if n == 0 { None } else { value_width(f, x, (n - 1) as nat) },
                Inst::IaddImm(x, _) => if n == 0 { None } else { value_width(f, x, (n - 1) as nat) },
                Inst::ImulImm(x, _) => if n == 0 { None } else { value_width(f, x, (n - 1) as nat) },
                Inst::Ineg(x) => if n == 0 { None } else { value_width(f, x, (n - 1) as nat) },
                Inst::Select(_, x, _) => if n == 0 { None } else { value_width(f, x, (n - 1) as nat) },
            }
        } else {
            None
        },
    }
}

/// Whether an instruction gives a value of that many bytes.
#[verifier::opaque]
pub open spec fn inst_sized(f: crate::ir::FuncV, v: Value, width: u8) -> bool {
    exists|n: nat| value_width(f, v, n) == Some(width)
}

/// Whether a value has that many bytes.
pub open spec fn sized(f: crate::ir::FuncV, v: Value, width: u8) -> bool {
    match v {
        Value::Param(_, _) => width == 8,
        Value::Inst(_, _) => inst_sized(f, v, width),
    }
}

/// Whether an instruction, where it stores a value, stores all of its bytes.
pub open spec fn stores_all(f: crate::ir::FuncV, i: Inst) -> bool {
    i matches Inst::Store { width, val, .. } ==> sized(f, val, width)
}

/// Whether every store is of all the bytes of a value.
pub open spec fn stores_fit(f: crate::ir::FuncV) -> bool {
    forall|b: int, k: int|
        0 <= b < f.blocks.len() && 0 <= k < f.blocks[b].insts.len() ==> stores_all(
            f,
            #[trigger] f.blocks[b].insts[k],
        )
}

proof fn lemma_value_width(f: crate::ir::FuncV, g: crate::ir::FuncV, v: Value, n: nat)
    requires
        crate::ir::extends(f, g),
        value_width(f, v, n) is Some,
    ensures
        value_width(g, v, n) == value_width(f, v, n),
    decreases n,
{
    if let Value::Inst(b, k) = v {
        assert(crate::ir::block_extends(f.blocks[b as int], g.blocks[b as int]));
        assert(g.blocks[b as int].insts[k as int] == f.blocks[b as int].insts[k as int]);
        match f.blocks[b as int].insts[k as int] {
            Inst::Iadd(x, _) => lemma_value_width(f, g, x, (n - 1) as nat),
            Inst::Isub(x, _) => lemma_value_width(f, g, x, (n - 1) as nat),
            Inst::Imul(x, _) => lemma_value_width(f, g, x, (n - 1) as nat),
            Inst::Bor(x, _) => lemma_value_width(f, g, x, (n - 1) as nat),
            Inst::Band(x, _) => lemma_value_width(f, g, x, (n - 1) as nat),
            Inst::IaddImm(x, _) => lemma_value_width(f, g, x, (n - 1) as nat),
            Inst::ImulImm(x, _) => lemma_value_width(f, g, x, (n - 1) as nat),
            Inst::Ineg(x) => lemma_value_width(f, g, x, (n - 1) as nat),
            Inst::Select(_, x, _) => lemma_value_width(f, g, x, (n - 1) as nat),
            _ => {},
        }
    }
}

/// A value keeps its width when more is built.
pub(crate) proof fn lemma_sized(f: crate::ir::FuncV, g: crate::ir::FuncV, v: Value, width: u8)
    requires
        crate::ir::extends(f, g),
        sized(f, v, width),
    ensures
        sized(g, v, width),
{
    reveal(inst_sized);
    if let Value::Inst(_, _) = v {
        let n = choose|n: nat| value_width(f, v, n) == Some(width);
        lemma_value_width(f, g, v, n);
    }
}

/// How many bytes the value that an instruction gives has, where that does not rest
/// on the values that it uses.
pub open spec fn fixed_width(i: Inst) -> Option<u8> {
    match i {
        Inst::Iconst(_) => Some(8),
        Inst::False => Some(1),
        Inst::Key(_) => Some(8),
        Inst::Scratch => Some(8),
        Inst::Test(_, _, _) => Some(1),
        Inst::TestImm(_, _, _) => Some(1),
        Inst::Uextend(_) => Some(8),
        Inst::Ireduce(width, _) => Some(width),
        Inst::Load { width, .. } => Some(width),
        Inst::Bitcast(_) => Some(8),
        Inst::Fdemote(_) => Some(4),
        Inst::Call(_, _) => Some(8),
        Inst::CallFn { .. } => Some(8),
        _ => None,
    }
}

/// The value whose width that of an instruction's result is.
pub open spec fn width_from(i: Inst) -> Option<Value> {
    match i {
        Inst::Iadd(x, _) => Some(x),
        Inst::Isub(x, _) => Some(x),
        Inst::Imul(x, _) => Some(x),
        Inst::Bor(x, _) => Some(x),
        Inst::Band(x, _) => Some(x),
        Inst::IaddImm(x, _) => Some(x),
        Inst::ImulImm(x, _) => Some(x),
        Inst::Ineg(x) => Some(x),
        Inst::Select(_, x, _) => Some(x),
        _ => None,
    }
}

/// The instruction that a value is the result of gives it its width.
pub(crate) proof fn lemma_gives_width(f: crate::ir::FuncV, v: Value, i: Inst)
    requires
        v matches Value::Inst(b, k) && b < f.blocks.len() && k < f.blocks[b as int].insts.len()
            && f.blocks[b as int].insts[k as int] == i,
    ensures
        fixed_width(i) matches Some(w) ==> sized(f, v, w),
        width_from(i) matches Some(x) ==> (sized(f, x, 8) ==> sized(f, v, 8)),
        width_from(i) matches Some(x) ==> forall|w: u8| #[trigger] sized(f, x, w) ==> sized(f, v, w),
{
    reveal(inst_sized);
    if let Some(w) = fixed_width(i) {
        assert(value_width(f, v, 0) == Some(w));
    }
    if let Some(x) = width_from(i) {
        assert forall|w: u8| #[trigger] sized(f, x, w) implies sized(f, v, w) by {
            let n = match x {
                Value::Param(_, _) => 0,
                Value::Inst(_, _) => choose|n: nat| value_width(f, x, n) == Some(w),
            };
            assert(value_width(f, x, n) == Some(w));
            assert(value_width(f, v, n + 1) == Some(w));
        }
    }
}

/// Following a value's width further changes nothing.
proof fn lemma_width_further(f: crate::ir::FuncV, v: Value, n: nat, m: nat)
    requires
        n <= m,
        value_width(f, v, n) is Some,
    ensures
        value_width(f, v, m) == value_width(f, v, n),
    decreases n,
{
    if let Value::Inst(b, k) = v {
        if let Some(x) = width_from(f.blocks[b as int].insts[k as int]) {
            lemma_width_further(f, x, (n - 1) as nat, (m - 1) as nat);
        }
    }
}

/// A value has one width.
pub(crate) proof fn lemma_one_width(f: crate::ir::FuncV, v: Value, a: u8, b: u8)
    requires
        sized(f, v, a),
        sized(f, v, b),
    ensures
        a == b,
{
    reveal(inst_sized);
    if v is Inst {
        let n = choose|n: nat| value_width(f, v, n) == Some(a);
        let m = choose|m: nat| value_width(f, v, m) == Some(b);
        if n <= m {
            lemma_width_further(f, v, n, m);
        } else {
            lemma_width_further(f, v, m, n);
        }
    }
}

/// Whether a function in cranelift's form is what code says, with the blocks in an
/// order.
pub open spec fn lowers(func: clif::Function, n: Numbers, l: Links, f: crate::ir::FuncV, order: Seq<usize>) -> bool {
    &&& numbers_all(n, f)
    &&& stores_fit(f)
    &&& all_done(n, l, f)
    &&& body_of(func) == func_steps(n, l, f, order, order.len())
    &&& body_of(func).len() <= MAX_STEPS
}

/// Whether every block has been handed over.
pub open spec fn all_done(n: Numbers, l: Links, f: crate::ir::FuncV) -> bool {
    forall|b: int| 0 <= b < f.blocks.len() ==> #[trigger] block_done(n, l, f, b)
}

/// Hands over the blocks of a function, in an order that begins with the first.
#[verifier::spinoff_prover]
#[verifier::rlimit(80)]
fn lower_blocks(
    m: &mut JITModule,
    builder: &mut FunctionBuilder<'static>,
    t: &mut Table,
    l: &Refs,
    f: &FuncIr,
    made: usize,
) -> (r: bool)
    requires
        l.stand_in(*old(m)),
        f.order@.len() == f.blocks@.len(),
        f.order@.len() > 0,
        f.order@[0] == 0,
        made == openings_len(f@, f@.blocks.len()),
        made <= MAX_STEPS,
        few_params(f@),
        same_shape(old(t)@, at_start(f@)),
        part_of(old(t)@, f@),
        one_to_one(old(t)@),
        within(old(t)@, *old(builder)),
        outside(steps_of(*old(builder))),
        steps_of(*old(builder)) == openings(old(t)@, f@.blocks.len()),
        steps_of(*old(builder)).len() == made,
        forall|k: int|
            0 <= k < old(t)@.blocks.len() ==> blank_of(*old(builder)).contains(#[trigger] old(t)@.blocks[k]),
    ensures
        same_module(*old(m), *final(m)),
        r == can_lower(l.links(), f@, f.order@),
        r ==> sig_in(*final(builder)) == sig_in(*old(builder)),
        r ==> numbers_all(final(t)@, f@),
        r ==> all_done(final(t)@, l.links(), f@),
        r ==> steps_of(*final(builder)) == func_steps(final(t)@, l.links(), f@, f.order@, f.order@.len()),
        r ==> steps_of(*final(builder)).len() <= MAX_STEPS,
        r ==> outside(steps_of(*final(builder))),
{
    let ghost order = f.order@;
    let total = f.order.len();
    let mut seen: Vec<bool> = Vec::new();
    let mut c: usize = 0;
    while c < total
        invariant
            c <= total,
            seen@.len() == c,
            forall|b: int| 0 <= b < c ==> !(#[trigger] seen@[b]),
        decreases total - c,
    {
        seen.push(false);
        c += 1;
    }
    let mut used: usize = made;
    proof {
        assert forall|b: int| 0 <= b < total implies (#[trigger] t@.insts[b]).len() == 0 by {
            assert(at_start(f@).insts[b].len() == 0);
        }
        assert forall|b: int| 0 <= b < total implies (#[trigger] t@.params[b]).len() == f@.blocks[b].params by {
            assert(at_start(f@).params[b].len() == f@.blocks[b].params);
        }
    }
    let mut j: usize = 0;
    while j < total
        invariant
            order == f.order@,
            total == order.len(),
            total == f.blocks@.len(),
            j <= total,
            total > 0,
            order[0] == 0,
            l.stand_in(*m),
            same_module(*old(m), *m),
            sig_in(*builder) == sig_in(*old(builder)),
            part_of(t@, f@),
            one_to_one(t@),
            within(t@, *builder),
            outside(steps_of(*builder)),
            same_shape(t@, after_blocks(f@, order, j as nat)),
            steps_of(*builder) == func_steps(t@, l.links(), f@, order, j as nat),
            used == steps_of(*builder).len(),
            used == func_len(f@, order, j as nat),
            used <= MAX_STEPS,
            seen@.len() == total,
            forall|i: int| 0 <= i < j ==> #[trigger] order[i] < total,
            forall|i: int| 0 <= i < j ==> seen@[#[trigger] order[i] as int],
            forall|i: int, k: int| 0 <= i < k < j ==> #[trigger] order[i] != #[trigger] order[k],
            forall|b: int| 0 <= b < total && #[trigger] seen@[b] ==> comes_up(order.take(j as int), b),
            forall|b: int|
                0 <= b < total && !(#[trigger] seen@[b]) ==> t@.insts[b].len() == 0 && blank_of(*builder).contains(
                    t@.blocks[b],
                ),
            forall|i: int| 0 <= i < j ==> block_done(t@, l.links(), f@, #[trigger] order[i] as int),
            forall|b: int|
                0 <= b < f@.blocks.len() ==> (#[trigger] t@.params[b]).len() == f@.blocks[b].params,
            forall|b: int, k: int|
                0 <= b < f@.blocks.len() && 0 <= k < t@.insts[b].len() ==> ((#[trigger] t@.insts[b][k]) is Some
                    <==> gives_value(f@.blocks[b].insts[k])),
            forall|i: int|
                0 <= i < j ==> block_fits(
                    after_blocks(f@, order, i as nat),
                    l.links(),
                    f@,
                    #[trigger] order[i] as int,
                ),
        decreases total - j,
    {
        let at = f.order[j];
        assert(at == order[j as int]);
        if at >= total {
            return false;
        }
        if seen[at] {
            proof {
                let i = choose|i: int| 0 <= i < j && #[trigger] order.take(j as int)[i] == at;
                assert(order.take(j as int)[i] == order[i]);
                assert(order[i] == order[j as int]);
            }
            return false;
        }
        let size = f.blocks[at].insts.len();
        proof {
            assert(f@.blocks[at as int] == f.blocks@[at as int]@);
            lemma_func_len(f@, order, (j + 1) as nat, order.len());
            lemma_same_shape(t@, after_blocks(f@, order, j as nat), l.links(), f@, at as int);
        }
        if size > MAX_STEPS - 2 || used > MAX_STEPS - 2 - size {
            return false;
        }
        let ghost n = t@;
        if !lower_block(m, builder, t, l, f, at) {
            return false;
        }
        seen.set(at, true);
        proof {
            lemma_after_block(n, t@, l.links(), f@, order, j as nat);
            assert(steps_of(*builder) == func_steps(t@, l.links(), f@, order, (j + 1) as nat));
            assert forall|b: int| 0 <= b < total && #[trigger] seen@[b] implies comes_up(
                order.take((j + 1) as int),
                b,
            ) by {
                if b == at {
                    assert(order.take((j + 1) as int)[j as int] == b);
                } else {
                    let i = choose|i: int| 0 <= i < j && #[trigger] order.take(j as int)[i] == b;
                    assert(order.take((j + 1) as int)[i] == b);
                }
            }
            assert forall|b: int| 0 <= b < total && !(#[trigger] seen@[b]) implies t@.insts[b].len() == 0
                && blank_of(*builder).contains(t@.blocks[b]) by {
                assert(t@.insts[b] == n.insts[b]);
                assert(n.blocks[b] != n.blocks[at as int]);
            }
            assert forall|b: int, k: int| 0 <= b < f@.blocks.len() && 0 <= k < t@.insts[b].len() implies ((
            #[trigger] t@.insts[b][k]) is Some <==> gives_value(f@.blocks[b].insts[k])) by {
                if b == at {
                    assert(t@.insts[b][k] is Some <==> after_part(n, f@, b, size as nat).insts[b][k] is Some);
                } else {
                    assert(t@.insts[b] == n.insts[b]);
                    assert(n.insts[b][k] is Some <==> gives_value(f@.blocks[b].insts[k]));
                }
            }
        }
        used = used + size + 2;
        j += 1;
    }
    assert(order.take(total as int) =~= order);
    let mut b: usize = 0;
    while b < total
        invariant
            b <= total,
            total == seen@.len(),
            total == f.blocks@.len(),
            order == f.order@,
            order == order.take(total as int),
            same_module(*old(m), *m),
            sig_in(*builder) == sig_in(*old(builder)),
            forall|i: int| 0 <= i < order.len() ==> seen@[#[trigger] order[i] as int],
            forall|k: int| 0 <= k < b ==> #[trigger] seen@[k],
        decreases total - b,
    {
        if !seen[b] {
            proof {
                assert(f@.blocks.len() == total);
                if can_lower(l.links(), f@, order) {
                    assert(comes_up(order, b as int));
                }
            }
            return false;
        }
        b += 1;
    }
    proof {
        assert forall|c: int| 0 <= c < f@.blocks.len() implies (#[trigger] t@.insts[c]).len()
            == f@.blocks[c].insts.len() && comes_up(order, c) by {
            assert(seen@[c]);
            let i = choose|i: int| 0 <= i < order.len() && #[trigger] order[i] == c;
            assert(block_done(t@, l.links(), f@, order[i] as int));
        }
        assert forall|c: int| 0 <= c < f@.blocks.len() implies #[trigger] comes_up(order, c) by {
            let _ = t@.insts[c];
        }
        assert(order_fits(f@, order));
        assert(func_len(f@, order, order.len()) <= MAX_STEPS);
        assert forall|c: int| 0 <= c < f@.blocks.len() implies #[trigger] block_done(t@, l.links(), f@, c) by {
            assert(comes_up(order, c));
            let i = choose|i: int| 0 <= i < order.len() && #[trigger] order[i] == c;
            assert(block_done(t@, l.links(), f@, order[i] as int));
        }
    }
    true
}

/// Hands a function over to cranelift, its blocks in the order in which they were
/// ended. This fails where an instruction refers to what does not come before it,
/// a constant does not fit, or there is too much.
pub(crate) fn lower(m: &mut JITModule, l: &Refs, f: &FuncIr, params: usize, ret: Ret) -> (r: Option<Lowered>)
    requires
        l.stand_in(*old(m)),
        stores_fit(f@),
    ensures
        same_module(*old(m), *final(m)),
        r is Some <==> can_lower(l.links(), f@, f.order@),
        r matches Some(g) ==> lowers(g.func, g.numbers@, l.links(), f@, f.order@) && sig_of(g.func) == (
            params as nat,
            ret,
        ),
{
    let mut builder = new_builder(m, params, ret);
    if f.order.len() != f.blocks.len() || f.order.len() == 0 {
        return None;
    }
    if f.order[0] != 0 {
        return None;
    }
    match make_blocks(&mut builder, f) {
        Some((mut t, made)) => {
            if !lower_blocks(m, &mut builder, &mut t, l, f, made) {
                return None;
            }
            seal_all_blocks(&mut builder);
            let func = take_function(builder);
            Some(Lowered { func, numbers: Ghost(t@) })
        },
        None => {
            proof {
                lemma_func_len(f@, f.order@, 0, f.order@.len());
            }
            None
        },
    }
}

} // verus!
