//! The code that is compiled: functions made of blocks of instructions, what
//! they mean, and how they are built up.
//!
//! A value is named by where it comes from: a parameter of a block, or an
//! instruction. What code means is given by running it on abstract values:
//! integers, pointers into a region, numbers still in writing, and nodes of a
//! parsed document. What it does to memory is the list of its writes, in the
//! terms of [`crate::interp`].
use crate::interp::{Block, OpV};
use crate::json::JsonV;
use vstd::prelude::*;
use vstd::string::*;

verus! {

/// A value: a block's parameter, or the result of an instruction, by the block
/// and the position in it.
#[derive(Clone, Copy, PartialEq, Eq, Structural, Debug)]
pub enum Value {
    Param(usize, usize),
    Inst(usize, usize),
}

/// How two integers, or two pointers into one region, are compared.
#[derive(Clone, Copy, PartialEq, Eq, Structural, Debug)]
pub enum Cc {
    Equal,
    /// Unsigned, less than.
    Ult,
    /// Unsigned, greater than or equal.
    Uge,
}

/// The functions that compiled code calls.
#[derive(Clone, Copy, PartialEq, Eq, Structural, Debug)]
pub enum Shim {
    /// The member of an object with the key at a pointer, of a length.
    ObjGet,
    /// The number of an array's items.
    ArrLen,
    /// An array's item.
    ArrGet,
    AsU64,
    AsI64,
    AsF64,
    AsBool,
    AsChar,
    /// The bytes of a string.
    StrPtr,
    /// How many bytes a string has.
    StrLen,
    /// A copy, in a block of its own, of bytes at a pointer, of a number.
    Dup,
    /// A block of a size and alignment; without bytes, the alignment as an address.
    Alloc,
    /// The position after a value.
    Skip,
    /// The position after a number, which is left in the scratch space.
    F64v,
    /// The character that the bytes at a pointer, of a number, begin with.
    CharAt,
}

/// The arguments of a call or a jump.
#[derive(Clone, Copy, PartialEq, Eq, Structural, Debug)]
pub enum Args {
    Zero,
    One(Value),
    Two(Value, Value),
    Three(Value, Value, Value),
}

/// An instruction.
#[derive(Clone, Copy, PartialEq, Eq, Structural, Debug)]
pub enum Inst {
    /// A constant of eight bytes.
    Iconst(i64),
    /// The truth value false, in one byte.
    False,
    /// A pointer to the bytes of a key, by its position among the keys.
    Key(usize),
    /// A pointer to the scratch space.
    Scratch,
    Iadd(Value, Value),
    Isub(Value, Value),
    Imul(Value, Value),
    Bor(Value, Value),
    Band(Value, Value),
    IaddImm(Value, i64),
    ImulImm(Value, i64),
    Ineg(Value),
    Test(Cc, Value, Value),
    TestImm(Cc, Value, i64),
    /// The second where the first is not zero, the third otherwise.
    Select(Value, Value, Value),
    /// One byte, widened to eight.
    Uextend(Value),
    /// The lowest bytes, of a number.
    Ireduce(u8, Value),
    /// Bytes read at a pointer and an offset from it.
    Load { width: u8, addr: Value, off: u64 },
    /// Bytes written at a pointer and an offset from it.
    Store { width: u8, val: Value, addr: Value, off: u64 },
    /// Eight bytes, taken as a floating-point number.
    Bitcast(Value),
    /// A floating-point number of eight bytes, in four.
    Fdemote(Value),
    Call(Shim, Args),
    /// A call of the function at an address, which makes an empty map at a place.
    MapNew { at: Value, dst: Value },
    /// A call of the function at an address, which moves a key and a value into the
    /// map at a place.
    MapInsert { at: Value, dst: Value, key: Value, val: Value },
    /// A call of another compiled function.
    CallFn { func: usize, dst: Value, cur: Value, end: Value, sc: Value },
}

/// Where a jump goes, and the arguments for that block's parameters.
#[derive(Clone, Copy, PartialEq, Eq, Structural, Debug)]
pub struct Target {
    pub block: usize,
    pub args: Args,
}

/// How a block ends.
#[derive(Clone, Copy, PartialEq, Eq, Structural, Debug)]
pub enum Term {
    Jump(Target),
    /// To the first where the value is not zero, to the second otherwise.
    Brif(Value, Target, Target),
    Return(Args),
}

/// A block.
#[derive(Debug)]
pub struct BlockIr {
    /// How many parameters it has.
    pub params: usize,
    pub insts: Vec<Inst>,
    pub term: Option<Term>,
}

/// What a [`BlockIr`] says.
#[verifier::ext_equal]
pub struct BlockV {
    pub params: usize,
    pub insts: Seq<Inst>,
    pub term: Option<Term>,
}

impl View for BlockIr {
    type V = BlockV;

    open spec fn view(&self) -> BlockV {
        BlockV { params: self.params, insts: self.insts@, term: self.term }
    }
}

/// A function. Its first block is the one that it is entered at.
#[derive(Debug)]
pub struct FuncIr {
    pub blocks: Vec<BlockIr>,
    /// The keys that it refers to.
    pub keys: Vec<String>,
    /// The block that is being built.
    pub cur: usize,
    /// The blocks that have been ended, in that order.
    pub order: Vec<usize>,
}

/// What a [`FuncIr`] says.
#[verifier::ext_equal]
pub struct FuncV {
    pub blocks: Seq<BlockV>,
    pub keys: Seq<Seq<char>>,
    pub order: Seq<usize>,
}

/// What a list of blocks says.
pub open spec fn blocks_view(v: Seq<BlockIr>) -> Seq<BlockV> {
    Seq::new(v.len(), |k: int| v[k]@)
}

/// What a list of keys says.
pub open spec fn keys_view(v: Seq<String>) -> Seq<Seq<char>> {
    Seq::new(v.len(), |k: int| v[k]@)
}

impl View for FuncIr {
    type V = FuncV;

    open spec fn view(&self) -> FuncV {
        FuncV { blocks: blocks_view(self.blocks@), keys: keys_view(self.keys@), order: self.order@ }
    }
}

// ---------------------------------------------------------------------------
// What code means.
// ---------------------------------------------------------------------------

/// Memory that a pointer leads into.
pub enum Region {
    /// Bytes that are only read.
    Data(Seq<u8>),
    /// The destination, or an allocated block.
    Out(Block),
    Scratch,
}

/// What a value can be.
pub enum Val {
    /// An unsigned integer of 64 bits.
    Int(int),
    Ptr(Region, int),
    /// A number as it is written, to be stored in that many bytes.
    Float(Seq<char>, u8),
    /// A node of a parsed document.
    Node(JsonV),
}

/// What code changes: the list of writes, and the number in the scratch space.
pub struct World {
    pub ops: Seq<OpV>,
    pub scratch: Option<Seq<char>>,
}

/// Where a function is, and what its values are.
pub struct State {
    pub block: int,
    pub at: int,
    pub vals: Map<Value, Val>,
    pub world: World,
}

/// The low 64 bits.
pub open spec fn m64(x: int) -> int {
    x % 0x1_0000_0000_0000_0000
}

/// The low 64 bits, read as a signed number.
pub open spec fn signed(x: int) -> int {
    if m64(x) < 0x8000_0000_0000_0000 {
        m64(x)
    } else {
        m64(x) - 0x1_0000_0000_0000_0000
    }
}

pub open spec fn truth(b: bool) -> Val {
    Val::Int(
        if b {
            1
        } else {
            0
        },
    )
}

pub open spec fn add_vals(a: Val, b: Val) -> Option<Val> {
    match (a, b) {
        (Val::Int(x), Val::Int(y)) => Some(Val::Int(m64(x + y))),
        (Val::Ptr(r, o), Val::Int(y)) => Some(Val::Ptr(r, o + signed(y))),
        _ => None,
    }
}

pub open spec fn sub_vals(a: Val, b: Val) -> Option<Val> {
    match (a, b) {
        (Val::Int(x), Val::Int(y)) => Some(Val::Int(m64(x - y))),
        (Val::Ptr(r, o), Val::Ptr(s, p)) => if r == s {
            Some(Val::Int(m64(o - p)))
        } else {
            None
        },
        _ => None,
    }
}

pub open spec fn compare(cc: Cc, x: int, y: int) -> bool {
    match cc {
        Cc::Equal => x == y,
        Cc::Ult => x < y,
        Cc::Uge => x >= y,
    }
}

pub open spec fn test_vals(cc: Cc, a: Val, b: Val) -> Option<Val> {
    match (a, b) {
        (Val::Int(x), Val::Int(y)) => Some(truth(compare(cc, x, y))),
        (Val::Ptr(r, o), Val::Ptr(s, p)) => if r == s {
            Some(truth(compare(cc, o, p)))
        } else {
            None
        },
        _ => None,
    }
}

/// What storing a value writes.
pub open spec fn store_op(width: u8, val: Val, block: Block, off: int) -> Option<OpV> {
    if !(0 <= off <= u64::MAX) {
        None
    } else {
        match val {
            Val::Int(x) => Some(
                OpV::Bytes {
                    block,
                    off: off as u64,
                    bytes: crate::arith::le(x as nat, width as nat),
                },
            ),
            Val::Ptr(Region::Out(Block::Heap(k)), o) => if o == 0 && width == 8 {
                Some(OpV::Ptr { block, off: off as u64, to: k })
            } else {
                None
            },
            Val::Ptr(Region::Out(Block::Nowhere(a)), o) => if o == 0 && width == 8 {
                Some(crate::interp::put(block, off as u64, crate::interp::word(a as nat)))
            } else {
                None
            },
            Val::Float(text, w) => if w == width {
                Some(OpV::Float { block, off: off as u64, text, width })
            } else {
                None
            },
            _ => None,
        }
    }
}

/// The ASCII text of bytes.
pub open spec fn text_of(b: Seq<u8>) -> Seq<char> {
    crate::text::ascii_text(b)
}

pub open spec fn push_op(w: World, op: OpV) -> World {
    World { ops: w.ops.push(op), scratch: w.scratch }
}

/// What allocating comes to.
pub open spec fn alloc_call(size: int, align: int, w: World) -> Option<(Val, World)> {
    let a = if align == 0 {
        1
    } else {
        align
    };
    if size == 0 {
        Some((Val::Ptr(Region::Out(Block::Nowhere(a as u64)), 0), w))
    } else if !crate::interp::layout_ok(size, a) || w.ops.len() > usize::MAX {
        None
    } else {
        Some(
            (
                Val::Ptr(Region::Out(Block::Heap(w.ops.len() as usize)), 0),
                push_op(w, OpV::Alloc { size: size as u64, align: a as u64 }),
            ),
        )
    }
}

/// What copying bytes comes to.
pub open spec fn dup_call(b: Seq<u8>, o: int, n: int, w: World) -> Option<(Val, World)> {
    if n == 0 {
        Some((Val::Int(1), w))
    } else if !(0 <= o && o + n <= b.len()) || n > u64::MAX || w.ops.len() > usize::MAX {
        None
    } else {
        let heap = Block::Heap(w.ops.len() as usize);
        Some(
            (
                Val::Ptr(Region::Out(heap), 0),
                push_op(
                    push_op(w, OpV::Alloc { size: n as u64, align: 1 }),
                    OpV::Bytes { block: heap, off: 0, bytes: b.subrange(o, o + n) },
                ),
            ),
        )
    }
}

/// What looking for the first character of some bytes comes to.
pub open spec fn char_call(b: Seq<u8>, o: int, n: int, w: World) -> Option<(Val, World)> {
    if 0 <= o && 0 <= n && o + n <= b.len() && vstd::utf8::valid_utf8(b.subrange(o, o + n)) {
        Some(
            (Val::Int(crate::interp::first_char(vstd::utf8::decode_utf8(b.subrange(o, o + n))) as int), w),
        )
    } else {
        None
    }
}

/// What a call with one argument comes to.
pub open spec fn call_one(shim: Shim, a: Val, w: World) -> Option<(Val, World)> {
    match (shim, a) {
        (Shim::ArrLen, Val::Node(JsonV::Array(items))) => if items.len() < 0x1_0000_0000_0000_0000 {
            Some((Val::Int(items.len() as int), w))
        } else {
            None
        },
        (Shim::AsU64, Val::Node(v)) => match crate::json::u128_of(v) {
            Some(n) => Some((Val::Int(m64(n as int)), w)),
            None => None,
        },
        (Shim::AsI64, Val::Node(v)) => match crate::json::i128_of(v) {
            Some(n) => Some((Val::Int(m64(n)), w)),
            None => None,
        },
        (Shim::AsF64, Val::Node(JsonV::Num(text))) => Some((Val::Float(text, 8), w)),
        (Shim::AsBool, Val::Node(v)) => Some((truth(v == JsonV::Bool(true)), w)),
        (Shim::AsChar, Val::Node(JsonV::Str(s))) => Some(
            (Val::Int(crate::interp::first_char(s) as int), w),
        ),
        (Shim::StrPtr, Val::Node(JsonV::Str(s))) => Some(
            (Val::Ptr(Region::Data(vstd::utf8::encode_utf8(s)), 0), w),
        ),
        (Shim::StrLen, Val::Node(JsonV::Str(s))) => if vstd::utf8::encode_utf8(s).len() < 0x1_0000_0000_0000_0000 {
            Some((Val::Int(vstd::utf8::encode_utf8(s).len() as int), w))
        } else {
            None
        },
        _ => None,
    }
}

/// What a call with two arguments comes to.
pub open spec fn call_two(shim: Shim, a: Val, b: Val, w: World) -> Option<(Val, World)> {
    match (shim, a, b) {
        (Shim::ArrGet, Val::Node(JsonV::Array(items)), Val::Int(i)) => if 0 <= i < items.len() {
            Some((Val::Node(items[i]), w))
        } else {
            None
        },
        (Shim::Dup, Val::Ptr(Region::Data(d), o), Val::Int(n)) => dup_call(d, o, n, w),
        (Shim::CharAt, Val::Ptr(Region::Data(d), o), Val::Int(n)) => char_call(d, o, n, w),
        (Shim::Alloc, Val::Int(size), Val::Int(align)) => alloc_call(size, align, w),
        (Shim::Skip, Val::Ptr(Region::Data(d), o), Val::Ptr(Region::Data(e), p)) => if d == e && p
            == d.len() && 0 <= o <= p {
            Some((Val::Ptr(Region::Data(d), crate::scan::value_end(d, o)), w))
        } else {
            None
        },
        _ => None,
    }
}

/// What a call with three arguments comes to.
pub open spec fn call_three(shim: Shim, a: Val, b: Val, c: Val, w: World) -> Option<(Val, World)> {
    match (shim, a, b, c) {
        (Shim::ObjGet, Val::Node(v), Val::Ptr(Region::Data(k), o), Val::Int(n)) => if o == 0 && n
            == k.len() && vstd::utf8::valid_utf8(k) {
            match crate::json::get_of(v, vstd::utf8::decode_utf8(k)) {
                Some(sub) => Some((Val::Node(sub), w)),
                None => None,
            }
        } else {
            None
        },
        (
            Shim::F64v,
            Val::Ptr(Region::Data(d), o),
            Val::Ptr(Region::Data(e), p),
            Val::Ptr(Region::Scratch, z),
        ) => if d == e && p == d.len() && 0 <= o <= p && z == 0 {
            let start = crate::scan::space_end(d, o);
            let end = crate::scan::number_end(d, start);
            Some(
                (
                    Val::Ptr(Region::Data(d), end),
                    World { ops: w.ops, scratch: Some(text_of(d.subrange(start, end))) },
                ),
            )
        } else {
            None
        },
        _ => None,
    }
}

pub open spec fn get(vals: Map<Value, Val>, v: Value) -> Option<Val> {
    if vals.dom().contains(v) {
        Some(vals[v])
    } else {
        None
    }
}

/// What an instruction that calls no compiled function comes to: its value, and
/// what it changes.
#[verifier::opaque]
pub open spec fn exec(inst: Inst, vals: Map<Value, Val>, w: World, keys: Seq<Seq<char>>) -> Option<
    (Val, World),
> {
    match inst {
        Inst::Iconst(v) => Some((Val::Int(m64(v as int)), w)),
        Inst::False => Some((Val::Int(0), w)),
        Inst::Key(k) => if k < keys.len() {
            Some((Val::Ptr(Region::Data(vstd::utf8::encode_utf8(keys[k as int])), 0), w))
        } else {
            None
        },
        Inst::Scratch => Some((Val::Ptr(Region::Scratch, 0), w)),
        Inst::Iadd(a, b) => match (get(vals, a), get(vals, b)) {
            (Some(a), Some(b)) => match add_vals(a, b) {
                Some(v) => Some((v, w)),
                None => None,
            },
            _ => None,
        },
        Inst::Isub(a, b) => match (get(vals, a), get(vals, b)) {
            (Some(a), Some(b)) => match sub_vals(a, b) {
                Some(v) => Some((v, w)),
                None => None,
            },
            _ => None,
        },
        Inst::Imul(a, b) => match (get(vals, a), get(vals, b)) {
            (Some(Val::Int(x)), Some(Val::Int(y))) => Some((Val::Int(m64(x * y)), w)),
            _ => None,
        },
        Inst::Bor(a, b) => match (get(vals, a), get(vals, b)) {
            (Some(Val::Int(x)), Some(Val::Int(y))) => if 0 <= x <= 1 && 0 <= y <= 1 {
                Some((truth(x == 1 || y == 1), w))
            } else {
                None
            },
            _ => None,
        },
        Inst::Band(a, b) => match (get(vals, a), get(vals, b)) {
            (Some(Val::Int(x)), Some(Val::Int(y))) => if 0 <= x <= 1 && 0 <= y <= 1 {
                Some((truth(x == 1 && y == 1), w))
            } else {
                None
            },
            _ => None,
        },
        Inst::IaddImm(a, imm) => match get(vals, a) {
            Some(a) => match add_vals(a, Val::Int(m64(imm as int))) {
                Some(v) => Some((v, w)),
                None => None,
            },
            None => None,
        },
        Inst::ImulImm(a, imm) => match get(vals, a) {
            Some(Val::Int(x)) => Some((Val::Int(m64(x * (imm as int))), w)),
            _ => None,
        },
        Inst::Ineg(a) => match get(vals, a) {
            Some(Val::Int(x)) => Some((Val::Int(m64(-x)), w)),
            _ => None,
        },
        Inst::Test(cc, a, b) => match (get(vals, a), get(vals, b)) {
            (Some(a), Some(b)) => match test_vals(cc, a, b) {
                Some(v) => Some((v, w)),
                None => None,
            },
            _ => None,
        },
        Inst::TestImm(cc, a, imm) => match get(vals, a) {
            Some(Val::Int(x)) => Some((truth(compare(cc, x, m64(imm as int))), w)),
            _ => None,
        },
        Inst::Select(c, a, b) => match (get(vals, c), get(vals, a), get(vals, b)) {
            (Some(Val::Int(c)), Some(a), Some(b)) => Some(
                (
                    if c != 0 {
                        a
                    } else {
                        b
                    },
                    w,
                ),
            ),
            _ => None,
        },
        Inst::Uextend(a) => match get(vals, a) {
            Some(Val::Int(x)) => if 0 <= x < 256 {
                Some((Val::Int(x), w))
            } else {
                None
            },
            _ => None,
        },
        Inst::Ireduce(n, a) => match get(vals, a) {
            Some(Val::Int(x)) => Some((Val::Int(x % (crate::arith::pow256(n as nat) as int)), w)),
            _ => None,
        },
        Inst::Load { width, addr, off } => match get(vals, addr) {
            Some(Val::Ptr(Region::Data(d), o)) => if width == 1 && 0 <= o + off < d.len() {
                Some((Val::Int(d[o + off] as int), w))
            } else {
                None
            },
            Some(Val::Ptr(Region::Scratch, o)) => if width == 8 && o + off == 0 && w.scratch is Some {
                Some((Val::Float(w.scratch->0, 8), w))
            } else {
                None
            },
            _ => None,
        },
        Inst::Store { width, val, addr, off } => match (get(vals, val), get(vals, addr)) {
            (Some(v), Some(Val::Ptr(Region::Out(block), o))) => match store_op(
                width,
                v,
                block,
                o + off,
            ) {
                Some(op) => Some((Val::Int(0), push_op(w, op))),
                None => None,
            },
            _ => None,
        },
        Inst::MapNew { at, dst } => match (get(vals, at), get(vals, dst)) {
            (Some(Val::Int(x)), Some(Val::Ptr(Region::Out(block), o))) => if 0 <= x <= u64::MAX && 0 <= o
                <= u64::MAX {
                Some((Val::Int(0), push_op(w, OpV::MapNew { block, off: o as u64, at: x as u64 })))
            } else {
                None
            },
            _ => None,
        },
        Inst::MapInsert { at, dst, key, val } => match (
            get(vals, at),
            get(vals, dst),
            get(vals, key),
            get(vals, val),
        ) {
            (
                Some(Val::Int(x)),
                Some(Val::Ptr(Region::Out(block), o)),
                Some(Val::Ptr(Region::Out(Block::Heap(k)), ko)),
                Some(Val::Ptr(Region::Out(Block::Heap(v)), vo)),
            ) => if 0 <= x <= u64::MAX && 0 <= o <= u64::MAX && ko == 0 && vo == 0 {
                Some(
                    (
                        Val::Int(0),
                        push_op(
                            w,
                            OpV::MapInsert { block, off: o as u64, key: k, val: v, at: x as u64 },
                        ),
                    ),
                )
            } else {
                None
            },
            _ => None,
        },
        Inst::Bitcast(a) => match get(vals, a) {
            Some(Val::Float(t, n)) => Some((Val::Float(t, n), w)),
            _ => None,
        },
        Inst::Fdemote(a) => match get(vals, a) {
            Some(Val::Float(t, n)) => if n == 8 {
                Some((Val::Float(t, 4), w))
            } else {
                None
            },
            _ => None,
        },
        Inst::Call(shim, Args::One(a)) => match get(vals, a) {
            Some(a) => call_one(shim, a, w),
            None => None,
        },
        Inst::Call(shim, Args::Two(a, b)) => match (get(vals, a), get(vals, b)) {
            (Some(a), Some(b)) => call_two(shim, a, b, w),
            _ => None,
        },
        Inst::Call(shim, Args::Three(a, b, c)) => match (
            get(vals, a),
            get(vals, b),
            get(vals, c),
        ) {
            (Some(a), Some(b), Some(c)) => call_three(shim, a, b, c, w),
            _ => None,
        },
        _ => None,
    }
}

/// The state in which a block is entered.
pub open spec fn enter(f: FuncV, s: State, t: Target) -> Option<State> {
    if t.block >= f.blocks.len() {
        None
    } else {
        let n = f.blocks[t.block as int].params;
        let vals = match t.args {
            Args::Zero => if n == 0 {
                Some(s.vals)
            } else {
                None
            },
            Args::One(a) => match get(s.vals, a) {
                Some(x) => if n == 1 {
                    Some(s.vals.insert(Value::Param(t.block, 0), x))
                } else {
                    None
                },
                None => None,
            },
            Args::Two(a, b) => match (get(s.vals, a), get(s.vals, b)) {
                (Some(x), Some(y)) => if n == 2 {
                    Some(
                        s.vals.insert(Value::Param(t.block, 0), x).insert(
                            Value::Param(t.block, 1),
                            y,
                        ),
                    )
                } else {
                    None
                },
                _ => None,
            },
            Args::Three(..) => None,
        };
        match vals {
            Some(vals) => Some(State { block: t.block as int, at: 0, vals, world: s.world }),
            None => None,
        }
    }
}

/// One step that stays in the function and calls none.
pub open spec fn step(f: FuncV, s: State) -> Option<State> {
    if !(0 <= s.block < f.blocks.len()) {
        None
    } else {
        let b = f.blocks[s.block];
        if 0 <= s.at < b.insts.len() {
            match exec(b.insts[s.at], s.vals, s.world, f.keys) {
                Some((v, w)) => Some(
                    State {
                        block: s.block,
                        at: s.at + 1,
                        vals: s.vals.insert(Value::Inst(s.block as usize, s.at as usize), v),
                        world: w,
                    },
                ),
                None => None,
            }
        } else if s.at == b.insts.len() {
            match b.term {
                Some(Term::Jump(t)) => enter(f, s, t),
                Some(Term::Brif(c, yes, no)) => match get(s.vals, c) {
                    Some(Val::Int(x)) => if x != 0 {
                        enter(f, s, yes)
                    } else {
                        enter(f, s, no)
                    },
                    _ => None,
                },
                _ => None,
            }
        } else {
            None
        }
    }
}

/// What a function returns in a state where it does.
pub open spec fn returned(f: FuncV, s: State) -> Option<(Val, World)> {
    if !(0 <= s.block < f.blocks.len()) || s.at != f.blocks[s.block].insts.len() {
        None
    } else {
        match f.blocks[s.block].term {
            Some(Term::Return(Args::Zero)) => Some((Val::Int(0), s.world)),
            Some(Term::Return(Args::One(v))) => match get(s.vals, v) {
                Some(x) => Some((x, s.world)),
                None => None,
            },
            _ => None,
        }
    }
}

/// The call of a compiled function that a state is at, with its arguments.
pub open spec fn calling(f: FuncV, s: State) -> Option<(usize, Seq<Val>)> {
    if !(0 <= s.block < f.blocks.len()) || !(0 <= s.at < f.blocks[s.block].insts.len()) {
        None
    } else {
        match f.blocks[s.block].insts[s.at] {
            Inst::CallFn { func, dst, cur, end, sc } => match (
                get(s.vals, dst),
                get(s.vals, cur),
                get(s.vals, end),
                get(s.vals, sc),
            ) {
                (Some(a), Some(b), Some(c), Some(d)) => Some((func, seq![a, b, c, d])),
                _ => None,
            },
            _ => None,
        }
    }
}

/// The state in which a function is entered.
pub open spec fn entry(args: Seq<Val>, w: World) -> State {
    State {
        block: 0,
        at: 0,
        vals: Map::new(
            |v: Value| v matches Value::Param(b, k) && b == 0 && k < args.len(),
            |v: Value| args[v->Param_1 as int],
        ),
        world: w,
    }
}

/// The state after a call of a compiled function has returned.
pub open spec fn resumed(s: State, v: Val, w: World) -> State {
    State {
        block: s.block,
        at: s.at + 1,
        vals: s.vals.insert(Value::Inst(s.block as usize, s.at as usize), v),
        world: w,
    }
}

/// What a function comes to from a state on: what it returns and what it
/// changes, where it does so within `fuel` steps.
pub open spec fn run(m: Seq<FuncV>, f: FuncV, s: State, fuel: nat) -> Option<(Val, World)>
    decreases fuel,
{
    if fuel == 0 {
        None
    } else {
        match returned(f, s) {
            Some(r) => Some(r),
            None => match calling(f, s) {
                Some((k, args)) => if k >= m.len() || m[k as int].blocks.len() == 0
                    || m[k as int].blocks[0].params != args.len() {
                    None
                } else {
                    match run(m, m[k as int], entry(args, s.world), (fuel - 1) as nat) {
                        Some((v, w)) => run(m, f, resumed(s, v, w), (fuel - 1) as nat),
                        None => None,
                    }
                },
                None => match step(f, s) {
                    Some(t) => run(m, f, t, (fuel - 1) as nat),
                    None => None,
                },
            },
        }
    }
}

// ---------------------------------------------------------------------------
// Going from state to state.
// ---------------------------------------------------------------------------

/// Whether a function comes to the same from both states, `n` steps later from
/// the first.
pub open spec fn goes_in(m: Seq<FuncV>, f: FuncV, s: State, t: State, n: nat) -> bool {
    forall|k: nat| #[trigger] run(m, f, t, k) is Some ==> run(m, f, s, n + k) == run(m, f, t, k)
}

/// Whether a function that is in the first state comes to the second.
#[verifier::opaque]
pub open spec fn goes(m: Seq<FuncV>, f: FuncV, s: State, t: State) -> bool {
    exists|n: nat| goes_in(m, f, s, t, n)
}

/// More fuel changes nothing.
pub proof fn lemma_run_more(m: Seq<FuncV>, f: FuncV, s: State, k: nat, n: nat)
    requires
        run(m, f, s, k) is Some,
    ensures
        run(m, f, s, k + n) == run(m, f, s, k),
    decreases k,
{
    if k > 0 && returned(f, s) is None {
        match calling(f, s) {
            Some((c, args)) => {
                let e = entry(args, s.world);
                lemma_run_more(m, m[c as int], e, (k - 1) as nat, n);
                let (v, w) = run(m, m[c as int], e, (k - 1) as nat)->0;
                lemma_run_more(m, f, resumed(s, v, w), (k - 1) as nat, n);
            },
            None => {
                lemma_run_more(m, f, step(f, s)->0, (k - 1) as nat, n);
            },
        }
    }
}

pub proof fn lemma_goes_refl(m: Seq<FuncV>, f: FuncV, s: State)
    ensures
        goes(m, f, s, s),
{
    reveal(goes);
    assert(goes_in(m, f, s, s, 0));
}

pub proof fn lemma_goes_trans(m: Seq<FuncV>, f: FuncV, s: State, t: State, u: State)
    requires
        goes(m, f, s, t),
        goes(m, f, t, u),
    ensures
        goes(m, f, s, u),
{
    reveal(goes);
    let a = choose|n: nat| goes_in(m, f, s, t, n);
    let b = choose|n: nat| goes_in(m, f, t, u, n);
    assert forall|k: nat| #[trigger] run(m, f, u, k) is Some implies run(m, f, s, (a + b) + k)
        == run(m, f, u, k) by {
        assert(run(m, f, t, b + k) == run(m, f, u, k));
        assert(run(m, f, s, a + (b + k)) == run(m, f, t, b + k));
        assert(a + (b + k) == (a + b) + k);
    }
    assert(goes_in(m, f, s, u, a + b));
}

pub proof fn lemma_goes_step(m: Seq<FuncV>, f: FuncV, s: State)
    requires
        step(f, s) is Some,
    ensures
        goes(m, f, s, step(f, s)->0),
{
    reveal(goes);
    reveal(exec);
    let t = step(f, s)->0;
    assert(returned(f, s) is None);
    assert(calling(f, s) is None);
    assert forall|k: nat| #[trigger] run(m, f, t, k) is Some implies run(m, f, s, 1 + k) == run(
        m,
        f,
        t,
        k,
    ) by {
        assert((1 + k - 1) as nat == k);
    }
    assert(goes_in(m, f, s, t, 1));
}

/// A call of a compiled function goes on with what that function returns.
pub proof fn lemma_goes_call(m: Seq<FuncV>, f: FuncV, s: State, n: nat)
    requires
        calling(f, s) is Some,
        ({
            let (c, args) = calling(f, s)->0;
            &&& c < m.len()
            &&& m[c as int].blocks.len() > 0
            &&& m[c as int].blocks[0].params == args.len()
            &&& run(m, m[c as int], entry(args, s.world), n) is Some
        }),
    ensures
        ({
            let (c, args) = calling(f, s)->0;
            let (v, w) = run(m, m[c as int], entry(args, s.world), n)->0;
            goes(m, f, s, resumed(s, v, w))
        }),
{
    reveal(goes);
    let (c, args) = calling(f, s)->0;
    let e = entry(args, s.world);
    let (v, w) = run(m, m[c as int], e, n)->0;
    let t = resumed(s, v, w);
    assert(returned(f, s) is None);
    assert forall|k: nat| #[trigger] run(m, f, t, k) is Some implies run(m, f, s, (n + 1) + k)
        == run(m, f, t, k) by {
        lemma_run_more(m, m[c as int], e, n, k);
        lemma_run_more(m, f, t, k, n);
        assert(((n + 1) + k - 1) as nat == n + k);
        assert(k + n == n + k);
    }
    assert(goes_in(m, f, s, t, n + 1));
}

// ---------------------------------------------------------------------------
// Building.
// ---------------------------------------------------------------------------

/// Whether a block begins as another does, and is the same where that is ended.
pub open spec fn block_extends(a: BlockV, b: BlockV) -> bool {
    &&& a.params == b.params
    &&& a.insts.len() <= b.insts.len()
    &&& forall|k: int| 0 <= k < a.insts.len() ==> #[trigger] b.insts[k] == a.insts[k]
    &&& a.term is Some ==> a == b
}

/// Whether the second function is the first, built further.
pub open spec fn extends(p: FuncV, q: FuncV) -> bool {
    &&& p.blocks.len() <= q.blocks.len()
    &&& forall|b: int| 0 <= b < p.blocks.len() ==> block_extends(p.blocks[b], #[trigger] q.blocks[b])
    &&& p.keys.len() <= q.keys.len()
    &&& forall|k: int| 0 <= k < p.keys.len() ==> #[trigger] q.keys[k] == p.keys[k]
}

pub proof fn lemma_extends_trans(p: FuncV, q: FuncV, r: FuncV)
    requires
        extends(p, q),
        extends(q, r),
    ensures
        extends(p, r),
{
    assert forall|b: int| 0 <= b < p.blocks.len() implies block_extends(
        p.blocks[b],
        #[trigger] r.blocks[b],
    ) by {
        assert(block_extends(p.blocks[b], q.blocks[b]));
        assert(block_extends(q.blocks[b], r.blocks[b]));
        assert forall|k: int| 0 <= k < p.blocks[b].insts.len() implies #[trigger] r.blocks[b].insts[k]
            == p.blocks[b].insts[k] by {
            assert(q.blocks[b].insts[k] == p.blocks[b].insts[k]);
        }
    }
    assert forall|k: int| 0 <= k < p.keys.len() implies #[trigger] r.keys[k] == p.keys[k] by {
        assert(q.keys[k] == p.keys[k]);
    }
}

/// A function being built, and the block that it is being built at.
pub struct Point {
    pub f: FuncV,
    pub cur: int,
}

/// Whether building can go on.
pub open spec fn open_at(p: Point) -> bool {
    0 <= p.cur < p.f.blocks.len() && p.f.blocks[p.cur].term is None
}

/// Whether the second point is reached from the first by building: only the
/// block that was being built and new ones have changed.
pub open spec fn grows(p: Point, q: Point) -> bool {
    &&& extends(p.f, q.f)
    &&& forall|b: int|
        0 <= b < p.f.blocks.len() && b != p.cur ==> #[trigger] q.f.blocks[b] == p.f.blocks[b]
    &&& q.cur == p.cur || p.f.blocks.len() <= q.cur
}

pub proof fn lemma_grows_refl(p: Point)
    ensures
        grows(p, p),
{
}

pub proof fn lemma_grows_trans(p: Point, q: Point, r: Point)
    requires
        grows(p, q),
        grows(q, r),
    ensures
        grows(p, r),
{
    lemma_extends_trans(p.f, q.f, r.f);
    assert forall|b: int| 0 <= b < p.f.blocks.len() && b != p.cur implies #[trigger] r.f.blocks[b]
        == p.f.blocks[b] by {
        assert(q.f.blocks[b] == p.f.blocks[b]);
    }
}

/// Whether a value has been built.
pub open spec fn built(p: FuncV, v: Value) -> bool {
    match v {
        Value::Param(b, k) => b < p.blocks.len() && k < p.blocks[b as int].params,
        Value::Inst(b, k) => b < p.blocks.len() && k < p.blocks[b as int].insts.len()
            && crate::lower::gives_value(p.blocks[b as int].insts[k as int]),
    }
}

pub proof fn lemma_built(p: FuncV, q: FuncV, v: Value)
    requires
        extends(p, q),
        built(p, v),
    ensures
        built(q, v),
{
    match v {
        Value::Param(b, k) => {
            assert(block_extends(p.blocks[b as int], q.blocks[b as int]));
        },
        Value::Inst(b, k) => {
            assert(block_extends(p.blocks[b as int], q.blocks[b as int]));
            assert(q.blocks[b as int].insts[k as int] == p.blocks[b as int].insts[k as int]);
        },
    }
}

/// Whether what had been built before has kept its value.
pub open spec fn keeps(p: FuncV, s: State, t: State) -> bool {
    forall|v: Value| built(p, v) ==> #[trigger] get(t.vals, v) == get(s.vals, v)
}

pub proof fn lemma_keeps_trans(p: FuncV, q: FuncV, s: State, t: State, u: State)
    requires
        extends(p, q),
        keeps(p, s, t),
        keeps(q, t, u),
    ensures
        keeps(p, s, u),
{
    assert forall|v: Value| built(p, v) implies #[trigger] get(u.vals, v) == get(s.vals, v) by {
        lemma_built(p, q, v);
        assert(get(t.vals, v) == get(s.vals, v));
    }
}

/// Whether a state is at the point where building goes on.
pub open spec fn stands(s: State, p: Point) -> bool {
    s.block == p.cur && s.at == p.f.blocks[p.cur].insts.len()
}

/// Whether code comes from a state to a point, with what had been built before
/// unchanged and the world as it is in `w`.
pub open spec fn comes(
    m: Seq<FuncV>,
    q: FuncV,
    s: State,
    p: FuncV,
    to: Point,
    w: World,
) -> bool {
    exists|t: State| #[trigger]
        goes(m, q, s, t) && stands(t, to) && keeps(p, s, t) && t.world == w
}

/// Whether code comes from a state to a point, with what had been built before
/// unchanged, a value having been computed, and the world as it is in `w`.
pub open spec fn computes(
    m: Seq<FuncV>,
    q: FuncV,
    s: State,
    p: FuncV,
    to: Point,
    r: Value,
    v: Val,
    w: World,
) -> bool {
    exists|t: State| #[trigger]
        goes(m, q, s, t) && stands(t, to) && keeps(p, s, t) && get(t.vals, r) == Some(v)
            && t.world == w
}

/// The state that code comes to.
pub proof fn computed(
    m: Seq<FuncV>,
    q: FuncV,
    s: State,
    p: FuncV,
    to: Point,
    r: Value,
    v: Val,
    w: World,
) -> (t: State)
    requires
        computes(m, q, s, p, to, r, v, w),
    ensures
        goes(m, q, s, t),
        stands(t, to),
        keeps(p, s, t),
        get(t.vals, r) == Some(v),
        t.world == w,
{
    choose|t: State| #[trigger]
        goes(m, q, s, t) && stands(t, to) && keeps(p, s, t) && get(t.vals, r) == Some(v)
            && t.world == w
}

/// The state that code comes to.
pub proof fn come(m: Seq<FuncV>, q: FuncV, s: State, p: FuncV, to: Point, w: World) -> (t: State)
    requires
        comes(m, q, s, p, to, w),
    ensures
        goes(m, q, s, t),
        stands(t, to),
        keeps(p, s, t),
        t.world == w,
{
    choose|t: State| #[trigger]
        goes(m, q, s, t) && stands(t, to) && keeps(p, s, t) && t.world == w
}

/// The function with an instruction more.
pub open spec fn with_inst(p: Point, i: Inst) -> FuncV {
    let b = p.f.blocks[p.cur];
    FuncV {
        blocks: p.f.blocks.update(
            p.cur,
            BlockV { params: b.params, insts: b.insts.push(i), term: b.term },
        ),
        keys: p.f.keys,
        order: p.f.order,
    }
}

/// The function with the block ended.
pub open spec fn with_term(p: Point, t: Term) -> FuncV {
    let b = p.f.blocks[p.cur];
    FuncV {
        blocks: p.f.blocks.update(
            p.cur,
            BlockV { params: b.params, insts: b.insts, term: Some(t) },
        ),
        keys: p.f.keys,
        order: p.f.order.push(p.cur as usize),
    }
}

/// An empty block.
pub open spec fn new_block(params: usize) -> BlockV {
    BlockV { params, insts: Seq::empty(), term: None }
}

/// The function with an empty block more.
pub open spec fn with_block(f: FuncV, params: usize) -> FuncV {
    FuncV { blocks: f.blocks.push(new_block(params)), keys: f.keys, order: f.order }
}

/// Whether a function has, in the block of a point and from that point on, a line
/// of instructions.
#[verifier::opaque]
pub open spec fn laid(f: FuncV, o: Point, line: Seq<Inst>) -> bool {
    &&& 0 <= o.cur < f.blocks.len()
    &&& o.cur <= usize::MAX
    &&& size_at(o) + line.len() <= f.blocks[o.cur].insts.len()
    &&& size_at(o) + line.len() <= usize::MAX
    &&& forall|j: int|
        0 <= j < line.len() ==> f.blocks[o.cur].insts[size_at(o) + j] == #[trigger] line[j]
}

/// How many instructions the block of a point has.
pub open spec fn size_at(o: Point) -> int {
    o.f.blocks[o.cur].insts.len() as int
}

/// Whether a function has, at the end of the block of a point, that end.
pub open spec fn sealed(f: FuncV, o: Point, t: Term) -> bool {
    &&& 0 <= o.cur < f.blocks.len()
    &&& f.blocks[o.cur].insts.len() == size_at(o)
    &&& f.blocks[o.cur].term == Some(t)
}

/// Whether a block takes that many parameters.
pub open spec fn takes(f: FuncV, b: usize, params: usize) -> bool {
    b < f.blocks.len() && f.blocks[b as int].params == params
}

/// Whether a block is there, and empty.
pub open spec fn fresh(f: FuncV, b: usize, params: usize) -> bool {
    b < f.blocks.len() && f.blocks[b as int] == new_block(params)
}

/// Whether a key is at that position.
pub open spec fn keyed(f: FuncV, k: usize, name: Seq<char>) -> bool {
    k < f.keys.len() && f.keys[k as int] == name
}

/// Whether the second function has what the first has.
pub open spec fn has_all(p: FuncV, q: FuncV) -> bool {
    &&& forall|o: Point, line: Seq<Inst>| #[trigger] laid(p, o, line) ==> laid(q, o, line)
    &&& forall|o: Point, t: Term| #[trigger] sealed(p, o, t) ==> sealed(q, o, t)
    &&& forall|b: usize, n: usize| #[trigger] takes(p, b, n) ==> takes(q, b, n)
    &&& forall|k: usize, name: Seq<char>| #[trigger] keyed(p, k, name) ==> keyed(q, k, name)
    &&& forall|v: Value| #[trigger] built(p, v) ==> built(q, v)
    &&& forall|v: Value, w: u8| #[trigger]
        crate::lower::sized(p, v, w) ==> crate::lower::sized(q, v, w)
    &&& forall|o: FuncV| #[trigger] extends(o, p) ==> extends(o, q)
}

/// Whether building from the first point to the second has kept what there was.
pub open spec fn carried(p: Point, q: Point) -> bool {
    &&& has_all(p.f, q.f)
    &&& forall|o: Point| #[trigger] grows(o, p) ==> grows(o, q)
    &&& forall|b: usize, n: usize| #[trigger]
        fresh(p.f, b, n) && b != p.cur ==> fresh(q.f, b, n)
}

pub proof fn lemma_has_all(p: FuncV, q: FuncV)
    requires
        extends(p, q),
    ensures
        has_all(p, q),
{
    reveal(laid);
    assert forall|o: Point, line: Seq<Inst>| #[trigger] laid(p, o, line) implies laid(
        q,
        o,
        line,
    ) by {
        assert(block_extends(p.blocks[o.cur], q.blocks[o.cur]));
        assert forall|j: int| 0 <= j < line.len() implies q.blocks[o.cur].insts[size_at(o) + j]
            == #[trigger] line[j] by {
            assert(p.blocks[o.cur].insts[size_at(o) + j] == line[j]);
        }
    }
    assert forall|o: Point, t: Term| #[trigger] sealed(p, o, t) implies sealed(q, o, t) by {
        assert(block_extends(p.blocks[o.cur], q.blocks[o.cur]));
    }
    assert forall|b: usize, n: usize| #[trigger] takes(p, b, n) implies takes(q, b, n) by {
        assert(block_extends(p.blocks[b as int], q.blocks[b as int]));
    }
    assert forall|k: usize, name: Seq<char>| #[trigger] keyed(p, k, name) implies keyed(
        q,
        k,
        name,
    ) by {
        assert(q.keys[k as int] == p.keys[k as int]);
    }
    assert forall|v: Value| #[trigger] built(p, v) implies built(q, v) by {
        lemma_built(p, q, v);
    }
    assert forall|v: Value, w: u8| #[trigger] crate::lower::sized(p, v, w) implies crate::lower::sized(
        q,
        v,
        w,
    ) by {
        crate::lower::lemma_sized(p, q, v, w);
    }
    assert forall|o: FuncV| #[trigger] extends(o, p) implies extends(o, q) by {
        lemma_extends_trans(o, p, q);
    }
}

pub proof fn lemma_carried(p: Point, q: Point)
    requires
        grows(p, q),
    ensures
        carried(p, q),
{
    lemma_has_all(p.f, q.f);
    assert forall|o: Point| #[trigger] grows(o, p) implies grows(o, q) by {
        lemma_grows_trans(o, p, q);
    }
}

/// Nothing is a line that is there.
pub proof fn lemma_laid_none(o: Point)
    requires
        open_at(o),
        o.cur <= usize::MAX,
        size_at(o) <= usize::MAX,
    ensures
        laid(o.f, o, seq![]),
        grows(o, o),
        extends(o.f, o.f),
{
    reveal(laid);
}

impl FuncIr {
    /// The point that the function is being built at.
    pub open spec fn point(&self) -> Point {
        Point { f: self@, cur: self.cur as int }
    }

    /// A function with an empty first block.
    pub fn new(params: usize) -> (r: FuncIr)
        ensures
            r@ == (FuncV { blocks: seq![new_block(params)], keys: Seq::empty(), order: Seq::empty() }),
            r.cur == 0,
            open_at(r.point()),
            params <= crate::lower::MAX_PARAMS ==> crate::tidy::tidy(r.point()),
            crate::tidy::left(r.point()) == 1,
            crate::tidy::total(r@) == params + 3,
            crate::tidy::calls_below(r@, 0),
    {
        let mut blocks: Vec<BlockIr> = Vec::new();
        blocks.push(BlockIr { params, insts: Vec::new(), term: None });
        let r = FuncIr { blocks, keys: Vec::new(), cur: 0, order: Vec::new() };
        assert(r@.blocks =~= seq![new_block(params)]);
        assert(r@.keys =~= Seq::<Seq<char>>::empty());
        assert(r@.order =~= Seq::<usize>::empty());
        proof {
            crate::tidy::lemma_new(r.point());
        }
        r
    }

    /// Adds an empty block.
    pub fn create_block(&mut self, params: usize) -> (r: usize)
        ensures
            r == old(self).blocks@.len(),
            final(self)@ == with_block(old(self)@, params),
            final(self).cur == old(self).cur,
            r >= old(self)@.blocks.len(),
            takes(final(self)@, r, params),
            fresh(final(self)@, r, params),
            open_at(old(self).point()) ==> open_at(final(self).point()) && r != final(self).cur
                && carried(old(self).point(), final(self).point()),
            crate::tidy::left(final(self).point()) == crate::tidy::left(old(self).point()) + 1,
            crate::tidy::tidy(old(self).point()) && params <= crate::lower::MAX_PARAMS ==> crate::tidy::tidy(
                final(self).point(),
            ),
            crate::tidy::adds(old(self).point(), final(self).point(), params + 3),
    {
        let r: usize = self.blocks.len();
        self.blocks.push(BlockIr { params, insts: Vec::new(), term: None });
        assert(self@.blocks =~= with_block(old(self)@, params).blocks);
        proof {
            if open_at(old(self).point()) {
                lemma_carried(old(self).point(), self.point());
            }
            assert(self@ =~= with_block(old(self)@, params));
            crate::tidy::lemma_with_block(old(self).point(), self.point(), params);
        }
        r
    }

    /// Goes on at a block.
    pub fn switch_to(&mut self, block: usize)
        ensures
            final(self)@ == old(self)@,
            final(self).cur == block,
            forall|o: Point| #[trigger]
                grows(o, old(self).point()) && o.f.blocks.len() <= block ==> grows(
                    o,
                    final(self).point(),
                ),
            forall|n: usize| #[trigger]
                fresh(old(self)@, block, n) ==> open_at(final(self).point()) && laid(
                    final(self)@,
                    final(self).point(),
                    seq![],
                ) && size_at(final(self).point()) == 0,
            extends(final(self)@, final(self)@),
            crate::tidy::left(final(self).point()) == crate::tidy::left(old(self).point()),
            forall|n: usize| #[trigger]
                fresh(old(self)@, block, n) && old(self).cur < old(self)@.blocks.len()
                    && old(self)@.blocks[old(self).cur as int].term is Some && crate::tidy::tidy(
                    old(self).point(),
                ) ==> crate::tidy::tidy(final(self).point()),
            crate::tidy::adds(old(self).point(), final(self).point(), 0),
    {
        proof {
            reveal(laid);
        }
        self.cur = block;
        proof {
            assert forall|n: usize| #[trigger]
                fresh(old(self)@, block, n) && old(self).cur < old(self)@.blocks.len()
                    && old(self)@.blocks[old(self).cur as int].term is Some && crate::tidy::tidy(
                    old(self).point(),
                ) implies crate::tidy::tidy(self.point()) by {
                crate::tidy::lemma_switch(old(self).point(), self.point(), n);
            }
        }
    }

    /// Adds an instruction.
    pub fn emit(&mut self, inst: Inst) -> (r: Value)
        requires
            open_at(old(self).point()),
            crate::tidy::ready(old(self).point(), inst),
        ensures
            r == Value::Inst(
                old(self).cur,
                old(self)@.blocks[old(self).cur as int].insts.len() as usize,
            ),
            old(self)@.blocks[old(self).cur as int].insts.len() <= usize::MAX,
            final(self)@ == with_inst(old(self).point(), inst),
            final(self).cur == old(self).cur,
            added(old(self).point(), final(self).point(), seq![inst]),
            r == slot(old(self).point(), 0),
            crate::lower::gives_value(inst) ==> built(final(self)@, r),
            crate::lower::fixed_width(inst) matches Some(w) ==> crate::lower::sized(final(self)@, r, w),
            crate::lower::width_from(inst) matches Some(x) ==> (crate::lower::sized(old(self)@, x, 8)
                ==> crate::lower::sized(final(self)@, r, 8)),
            crate::tidy::left(final(self).point()) == crate::tidy::left(old(self).point()),
            crate::tidy::tidy(old(self).point()) ==> crate::tidy::tidy(final(self).point()),
            !(inst is CallFn) ==> crate::tidy::adds(old(self).point(), final(self).point(), 1),
            crate::tidy::tidy(old(self).point()) ==> crate::tidy::total(final(self)@) == crate::tidy::total(
                old(self)@,
            ) + 1,
            forall|c: int| #[trigger]
                crate::tidy::calls_below(old(self)@, c) && crate::tidy::call_below(inst, c)
                    ==> crate::tidy::calls_below(final(self)@, c),
            carried(old(self).point(), final(self).point()),
            forall|o: Point, line: Seq<Inst>| #[trigger]
                laid(old(self)@, o, line) && o.cur == old(self).cur && size_at(o) + line.len()
                    == size_at(old(self).point()) ==> laid(final(self)@, o, line.push(inst)) && r
                    == slot(o, line.len() as int),
    {
        let k: usize = self.blocks[self.cur].insts.len();
        self.blocks[self.cur].insts.push(inst);
        let n: usize = self.blocks[self.cur].insts.len();
        proof {
            assert(self@.blocks =~= with_inst(old(self).point(), inst).blocks);
            assert(self@.keys =~= old(self)@.keys);
            assert(n == self@.blocks[self.cur as int].insts.len());
            assert(self@.blocks[self.cur as int].insts =~= old(
                self,
            )@.blocks[self.cur as int].insts + seq![inst]);
            lemma_carried(old(self).point(), self.point());
            reveal(laid);
            assert(self@ =~= with_inst(old(self).point(), inst));
            crate::tidy::lemma_with_inst(old(self).point(), self.point(), inst);
            let r = Value::Inst(self.cur, k);
            crate::lower::lemma_gives_width(self@, r, inst);
        }
        Value::Inst(self.cur, k)
    }

    /// Ends the block.
    pub fn end(&mut self, term: Term)
        requires
            open_at(old(self).point()),
            crate::tidy::can_close(old(self).point(), term),
        ensures
            crate::tidy::left(final(self).point()) == crate::tidy::left(old(self).point()) - 1,
            crate::tidy::tidy(old(self).point()) ==> crate::tidy::tidy(final(self).point()),
            crate::tidy::adds(old(self).point(), final(self).point(), 0),
            final(self)@ == with_term(old(self).point(), term),
            final(self).cur == old(self).cur,
            extends(old(self)@, final(self)@),
            sealed(final(self)@, old(self).point(), term),
            carried(old(self).point(), final(self).point()),
    {
        self.blocks[self.cur].term = Some(term);
        self.order.push(self.cur);
        proof {
            assert(self@.blocks =~= with_term(old(self).point(), term).blocks);
            assert(self@.keys =~= old(self)@.keys);
            lemma_carried(old(self).point(), self.point());
            assert(self@ =~= with_term(old(self).point(), term));
            crate::tidy::lemma_with_term(old(self).point(), self.point(), term);
        }
    }

    /// Adds a key.
    pub fn key(&mut self, name: String) -> (r: usize)
        ensures
            r == old(self).keys@.len(),
            final(self)@ == (FuncV {
                blocks: old(self)@.blocks,
                keys: old(self)@.keys.push(name@),
                order: old(self)@.order,
            }),
            crate::tidy::left(final(self).point()) == crate::tidy::left(old(self).point()),
            crate::tidy::tidy(old(self).point()) ==> crate::tidy::tidy(final(self).point()),
            crate::tidy::adds(old(self).point(), final(self).point(), 0),
            final(self).cur == old(self).cur,
            keyed(final(self)@, r, name@),
            carried(old(self).point(), final(self).point()),
    {
        let r: usize = self.keys.len();
        self.keys.push(name);
        proof {
            assert(self@.keys =~= old(self)@.keys.push(name@));
            lemma_carried(old(self).point(), self.point());
            crate::tidy::lemma_with_key(old(self).point(), self.point());
        }
        r
    }
}

/// An instruction that was added is carried out.
pub proof fn lemma_inst(m: Seq<FuncV>, p: Point, i: Inst, q: FuncV, s: State)
    requires
        open_at(p),
        p.cur <= usize::MAX,
        p.f.blocks[p.cur].insts.len() <= usize::MAX,
        extends(with_inst(p, i), q),
        stands(s, p),
        exec(i, s.vals, s.world, q.keys) is Some,
    ensures
        ({
            let (v, w) = exec(i, s.vals, s.world, q.keys)->0;
            computes(
                m,
                q,
                s,
                p.f,
                Point { f: with_inst(p, i), cur: p.cur },
                Value::Inst(p.cur as usize, p.f.blocks[p.cur].insts.len() as usize),
                v,
                w,
            )
        }),
{
    let (v, w) = exec(i, s.vals, s.world, q.keys)->0;
    let r = with_inst(p, i);
    let k = p.f.blocks[p.cur].insts.len() as int;
    assert(block_extends(r.blocks[p.cur], q.blocks[p.cur]));
    assert(q.blocks[p.cur].insts[k] == r.blocks[p.cur].insts[k]);
    let t = step(q, s)->0;
    lemma_goes_step(m, q, s);
    assert(goes(m, q, s, t));
    assert(keeps(p.f, s, t));
}

/// Whether the second point is the first with a line of instructions more.
pub open spec fn added(p: Point, to: Point, line: Seq<Inst>) -> bool {
    &&& open_at(p)
    &&& open_at(to)
    &&& to.cur == p.cur
    &&& p.cur <= usize::MAX
    &&& grows(p, to)
    &&& to.f.blocks[to.cur].insts == p.f.blocks[p.cur].insts + line
    &&& to.f.blocks[to.cur].insts.len() <= usize::MAX
}

/// The `j`th instruction of a line that was added.
pub open spec fn slot(p: Point, j: int) -> Value {
    Value::Inst(p.cur as usize, (p.f.blocks[p.cur].insts.len() + j) as usize)
}

/// Carries out, after what has been carried out from `s0` on, an instruction
/// that was added at a point.
pub proof fn then_inst(
    m: Seq<FuncV>,
    q: FuncV,
    p0: FuncV,
    s0: State,
    p: Point,
    i: Inst,
    a: State,
    v: Val,
    w: World,
) -> (b: State)
    requires
        open_at(p),
        p.cur <= usize::MAX,
        p.f.blocks[p.cur].insts.len() < usize::MAX,
        extends(with_inst(p, i), q),
        extends(p0, p.f),
        goes(m, q, s0, a),
        keeps(p0, s0, a),
        stands(a, p),
        exec(i, a.vals, a.world, q.keys) == Some((v, w)),
    ensures
        goes(m, q, s0, b),
        keeps(p0, s0, b),
        keeps(p.f, a, b),
        stands(b, Point { f: with_inst(p, i), cur: p.cur }),
        get(b.vals, slot(p, 0)) == Some(v),
        b.world == w,
{
    lemma_inst(m, p, i, q, a);
    let to = Point { f: with_inst(p, i), cur: p.cur };
    let b = computed(m, q, a, p.f, to, slot(p, 0), v, w);
    lemma_goes_trans(m, q, s0, a, b);
    lemma_keeps_trans(p0, p.f, s0, a, b);
    b
}

/// Where the end of a block leads.
pub open spec fn taken(t: Term, vals: Map<Value, Val>) -> Option<Target> {
    match t {
        Term::Jump(to) => Some(to),
        Term::Brif(c, yes, no) => match get(vals, c) {
            Some(Val::Int(x)) => Some(
                if x != 0 {
                    yes
                } else {
                    no
                },
            ),
            _ => None,
        },
        Term::Return(_) => None,
    }
}

/// Goes on, after what has been carried out from `s0` on, at the block that the
/// end of a block leads to.
pub proof fn goto(
    m: Seq<FuncV>,
    q: FuncV,
    p0: FuncV,
    s0: State,
    a: State,
    o: Point,
    term: Term,
    to: Target,
) -> (t: State)
    requires
        sealed(q, o, term),
        goes(m, q, s0, a),
        keeps(p0, s0, a),
        stands(a, o),
        taken(term, a.vals) == Some(to),
        enter(q, a, to) is Some,
        to.args == Args::Zero || p0.blocks.len() <= to.block,
    ensures
        goes(m, q, s0, t),
        keeps(p0, s0, t),
        t == enter(q, a, to)->0,
        t.block == to.block,
        t.at == 0,
        t.world == a.world,
{
    let t = enter(q, a, to)->0;
    assert(step(q, a) == Some(t));
    lemma_goes_step(m, q, a);
    lemma_goes_trans(m, q, s0, a, t);
    assert forall|v: Value| built(p0, v) implies #[trigger] get(t.vals, v) == get(s0.vals, v) by {
        assert(get(a.vals, v) == get(s0.vals, v));
    }
    t
}

/// Goes on with what has been carried out from `a` on.
pub proof fn go_on(m: Seq<FuncV>, q: FuncV, p0: FuncV, s0: State, a: State, p: FuncV, t: State)
    requires
        goes(m, q, s0, a),
        keeps(p0, s0, a),
        extends(p0, p),
        goes(m, q, a, t),
        keeps(p, a, t),
    ensures
        goes(m, q, s0, t),
        keeps(p0, s0, t),
{
    lemma_goes_trans(m, q, s0, a, t);
    lemma_keeps_trans(p0, p, s0, a, t);
}

} // verus!
