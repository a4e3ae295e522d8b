//! What the steps that are handed over to cranelift do, one by one, on numbered
//! values; and that code which is handed over does what it means, as
//! [`law_steps_do_what_code_means`] says.
use crate::arith::pow256;
use crate::ir::{add_vals, compare, m64, store_op, sub_vals, test_vals, truth};
use crate::ir::{call_one, call_three, call_two, push_op, FuncV, Inst, Region, Shim, State, Term, Val, Value, World};
use crate::interp::{Block, OpV};
use crate::lower::{Links, Numbers, Step};
use vstd::prelude::*;

verus! {

/// A numbered value: what it is, and how many bytes it takes.
pub struct Reg {
    pub val: Val,
    pub width: u8,
}

/// What steps run in.
pub struct Setting {
    /// The functions with code, by number.
    pub code: Map<u32, Seq<Step>>,
    /// The functions from outside, by number.
    pub hooks: Map<u32, Shim>,
    /// Whether bytes lie at an address.
    pub kept: spec_fn(u64, Seq<u8>) -> bool,
    /// Which of the constants of a function are addresses of bytes, and of which.
    pub names: spec_fn(u32, u32) -> Option<Seq<u8>>,
}

/// Where a function is, what its values are, and what it has changed.
pub struct Spot {
    pub pc: int,
    pub regs: Map<u32, Reg>,
    pub world: World,
}

/// What a numbered value is.
pub open spec fn val(regs: Map<u32, Reg>, x: u32) -> Option<Val> {
    if regs.dom().contains(x) {
        Some(regs[x].val)
    } else {
        None
    }
}

/// What numbered values are.
pub open spec fn vals(regs: Map<u32, Reg>, xs: Seq<u32>) -> Option<Seq<Val>>
    decreases xs.len(),
{
    if xs.len() == 0 {
        Some(Seq::empty())
    } else {
        match (vals(regs, xs.drop_last()), val(regs, xs.last())) {
            (Some(a), Some(b)) => Some(a.push(b)),
            _ => None,
        }
    }
}

/// How many bytes a numbered value takes.
pub open spec fn width(regs: Map<u32, Reg>, x: u32) -> u8 {
    regs[x].width
}

/// With a value more, where there is one.
pub open spec fn with(regs: Map<u32, Reg>, w: World, r: u32, width: u8, v: Option<Val>) -> Option<
    (Map<u32, Reg>, World),
> {
    match v {
        Some(val) => Some((regs.insert(r, Reg { val, width }), w)),
        None => None,
    }
}

/// With a write more, where there is one.
pub open spec fn written(regs: Map<u32, Reg>, w: World, op: Option<OpV>) -> Option<(Map<u32, Reg>, World)> {
    match op {
        Some(op) => Some((regs, push_op(w, op))),
        None => None,
    }
}

/// The negative of an integer, of 64 bits.
pub open spec fn negative(a: Val) -> Option<Val> {
    match a {
        Val::Int(x) => Some(Val::Int(m64(0 - x))),
        _ => None,
    }
}

/// The product of integers, of 64 bits.
pub open spec fn product(a: Val, b: Val) -> Option<Val> {
    match (a, b) {
        (Val::Int(x), Val::Int(y)) => Some(Val::Int(m64(x * y))),
        _ => None,
    }
}

/// The bits that either of two integers has.
pub open spec fn either(a: Val, b: Val) -> Option<Val> {
    match (a, b) {
        (Val::Int(x), Val::Int(y)) => Some(Val::Int(((x as u64) | (y as u64)) as int)),
        _ => None,
    }
}

/// The bits that both of two integers have.
pub open spec fn both(a: Val, b: Val) -> Option<Val> {
    match (a, b) {
        (Val::Int(x), Val::Int(y)) => Some(Val::Int(((x as u64) & (y as u64)) as int)),
        _ => None,
    }
}

/// The first of two values where an integer is not zero, else the second.
pub open spec fn picked(c: Val, a: Val, b: Val) -> Option<Val> {
    match c {
        Val::Int(x) => Some(
            if x == 0 {
                b
            } else {
                a
            },
        ),
        _ => None,
    }
}

/// The lowest bytes of an integer.
pub open spec fn lowest(a: Val, width: u8) -> Option<Val> {
    match a {
        Val::Int(x) => Some(Val::Int(x % (pow256(width as nat) as int))),
        _ => None,
    }
}

/// What is at a place: a byte of what is only read, or the number in the scratch space.
pub open spec fn read_at(a: Val, off: int, width: u8, w: World) -> Option<Val> {
    match a {
        Val::Ptr(Region::Data(d), o) => if width == 1 && 0 <= o + off < d.len() {
            Some(Val::Int(d[o + off] as int))
        } else {
            None
        },
        Val::Ptr(Region::Scratch, o) => if width == 8 && o + off == 0 && w.scratch is Some {
            Some(Val::Float(w.scratch->0, 8))
        } else {
            None
        },
        _ => None,
    }
}

/// The write that storing a value of so many bytes at a place is.
pub open spec fn stored(v: Val, width: u8, a: Val, off: int) -> Option<OpV> {
    match a {
        Val::Ptr(Region::Out(block), o) => store_op(width, v, block, o + off),
        _ => None,
    }
}

/// What calling the function at an address comes to: with a place, an empty map is
/// made there; with a place and two blocks, a key and a value are moved into the map
/// there.
pub open spec fn called_at(at: Val, args: Seq<Val>) -> Option<OpV> {
    match at {
        Val::Int(x) => if !(0 <= x <= u64::MAX) || args.len() == 0 {
            None
        } else {
            match args[0] {
                Val::Ptr(Region::Out(block), o) => if !(0 <= o <= u64::MAX) {
                    None
                } else if args.len() == 1 {
                    Some(OpV::MapNew { block, off: o as u64, at: x as u64 })
                } else if args.len() == 3 {
                    match (args[1], args[2]) {
                        (
                            Val::Ptr(Region::Out(Block::Heap(k)), ko),
                            Val::Ptr(Region::Out(Block::Heap(v)), vo),
                        ) => if ko == 0 && vo == 0 {
                            Some(OpV::MapInsert { block, off: o as u64, key: k, val: v, at: x as u64 })
                        } else {
                            None
                        },
                        _ => None,
                    }
                } else {
                    None
                },
                _ => None,
            }
        },
        _ => None,
    }
}

/// What calling a function from outside comes to.
pub open spec fn hooked(shim: Shim, args: Seq<Val>, w: World) -> Option<(Val, World)> {
    if args.len() == 1 {
        call_one(shim, args[0], w)
    } else if args.len() == 2 {
        call_two(shim, args[0], args[1], w)
    } else if args.len() == 3 {
        call_three(shim, args[0], args[1], args[2], w)
    } else {
        None
    }
}

/// What a step of a function does that stays in its block and calls no function with
/// code.
pub open spec fn act(e: Setting, id: u32, s: Step, regs: Map<u32, Reg>, w: World) -> Option<
    (Map<u32, Reg>, World),
> {
    match s {
        Step::Iconst { width, v, r } => with(
            regs,
            w,
            r,
            width,
            match (e.names)(id, r) {
                None => lowest(Val::Int(v as int), width),
                Some(bytes) => if width == 8 && (e.kept)(v as u64, bytes) {
                    Some(Val::Ptr(Region::Data(bytes), 0))
                } else {
                    None
                },
            },
        ),
        Step::Scratch { r } => with(regs, w, r, 8, Some(Val::Ptr(Region::Scratch, 0))),
        Step::Iadd { x, y, r } => match (val(regs, x), val(regs, y)) {
            (Some(a), Some(b)) => with(regs, w, r, width(regs, x), add_vals(a, b)),
            _ => None,
        },
        Step::Isub { x, y, r } => match (val(regs, x), val(regs, y)) {
            (Some(a), Some(b)) => with(regs, w, r, width(regs, x), sub_vals(a, b)),
            _ => None,
        },
        Step::Imul { x, y, r } => match (val(regs, x), val(regs, y)) {
            (Some(a), Some(b)) => with(regs, w, r, width(regs, x), product(a, b)),
            _ => None,
        },
        Step::Bor { x, y, r } => match (val(regs, x), val(regs, y)) {
            (Some(a), Some(b)) => with(regs, w, r, width(regs, x), either(a, b)),
            _ => None,
        },
        Step::Band { x, y, r } => match (val(regs, x), val(regs, y)) {
            (Some(a), Some(b)) => with(regs, w, r, width(regs, x), both(a, b)),
            _ => None,
        },
        Step::IaddImm { x, v, r } => match val(regs, x) {
            Some(a) => with(regs, w, r, width(regs, x), add_vals(a, Val::Int(m64(v as int)))),
            None => None,
        },
        Step::ImulImm { x, v, r } => match val(regs, x) {
            Some(a) => with(regs, w, r, width(regs, x), product(a, Val::Int(v as int))),
            None => None,
        },
        Step::Ineg { x, r } => match val(regs, x) {
            Some(a) => with(regs, w, r, width(regs, x), negative(a)),
            None => None,
        },
        Step::Test { cc, x, y, r } => match (val(regs, x), val(regs, y)) {
            (Some(a), Some(b)) => with(regs, w, r, 1, test_vals(cc, a, b)),
            _ => None,
        },
        Step::TestImm { cc, x, v, r } => match val(regs, x) {
            Some(Val::Int(a)) => with(regs, w, r, 1, Some(truth(compare(cc, a, m64(v as int))))),
            _ => None,
        },
        Step::Select { c, x, y, r } => match (val(regs, c), val(regs, x), val(regs, y)) {
            (Some(o), Some(a), Some(b)) => with(regs, w, r, width(regs, x), picked(o, a, b)),
            _ => None,
        },
        Step::Uextend { x, r } => match val(regs, x) {
            Some(Val::Int(a)) => with(regs, w, r, 8, Some(Val::Int(a))),
            _ => None,
        },
        Step::Ireduce { width, x, r } => match val(regs, x) {
            Some(a) => with(regs, w, r, width, lowest(a, width)),
            None => None,
        },
        Step::Load { width, addr, off, r } => match val(regs, addr) {
            Some(a) => with(regs, w, r, width, read_at(a, off as int, width, w)),
            None => None,
        },
        Step::Store { x, addr, off } => match (val(regs, x), val(regs, addr)) {
            (Some(v), Some(a)) => written(regs, w, stored(v, width(regs, x), a, off as int)),
            _ => None,
        },
        Step::CallAt { at, args } => match (val(regs, at), vals(regs, args)) {
            (Some(a), Some(vs)) => written(regs, w, called_at(a, vs)),
            _ => None,
        },
        Step::Bitcast { x, r } => match val(regs, x) {
            Some(Val::Float(t, n)) => with(regs, w, r, 8, Some(Val::Float(t, n))),
            _ => None,
        },
        Step::Fdemote { x, r } => match val(regs, x) {
            Some(Val::Float(t, n)) => if n == 8 {
                with(regs, w, r, 4, Some(Val::Float(t, 4)))
            } else {
                None
            },
            _ => None,
        },
        Step::Call { func, args, r } => match vals(regs, args) {
            Some(vs) => if e.hooks.dom().contains(func) {
                match hooked(e.hooks[func], vs, w) {
                    Some((v, after)) => with(regs, after, r, 8, Some(v)),
                    None => None,
                }
            } else {
                None
            },
            None => None,
        },
        _ => None,
    }
}

/// Whether a block begins at a position.
pub open spec fn begins(steps: Seq<Step>, block: u32, p: int) -> bool {
    0 <= p < steps.len() && steps[p] == (Step::Switch { block })
}

/// Where a block begins.
pub open spec fn beginning(steps: Seq<Step>, block: u32) -> int {
    choose|p: int| begins(steps, block, p)
}

/// The numbers of a block's parameters.
pub open spec fn params_of(steps: Seq<Step>, block: u32) -> Seq<u32>
    decreases steps.len(),
{
    if steps.len() == 0 {
        Seq::empty()
    } else {
        match steps.last() {
            Step::Param { block: b, r } => if b == block {
                params_of(steps.drop_last(), block).push(r)
            } else {
                params_of(steps.drop_last(), block)
            },
            _ => params_of(steps.drop_last(), block),
        }
    }
}

/// With values for parameters, of eight bytes each.
pub open spec fn bound(regs: Map<u32, Reg>, ps: Seq<u32>, vs: Seq<Val>) -> Map<u32, Reg>
    decreases ps.len(),
{
    if ps.len() == 0 || vs.len() == 0 {
        regs
    } else {
        bound(regs, ps.drop_last(), vs.drop_last()).insert(ps.last(), Reg { val: vs.last(), width: 8 })
    }
}

/// Where a jump to a block leads.
pub open spec fn jumped(steps: Seq<Step>, s: Spot, to: u32, args: Seq<u32>) -> Option<Spot> {
    match vals(s.regs, args) {
        Some(vs) => if params_of(steps, to).len() == vs.len() {
            Some(
                Spot {
                    pc: beginning(steps, to) + 1,
                    regs: bound(s.regs, params_of(steps, to), vs),
                    world: s.world,
                },
            )
        } else {
            None
        },
        None => None,
    }
}

/// Whether the first block begins at a position.
pub open spec fn begins_first(steps: Seq<Step>, p: int) -> bool {
    &&& 0 <= p < steps.len()
    &&& steps[p] is Switch
    &&& forall|q: int| 0 <= q < p ==> !((#[trigger] steps[q]) is Switch)
}

/// Where a function begins, called with some arguments.
pub open spec fn entered(steps: Seq<Step>, args: Seq<Val>, w: World) -> Option<Spot> {
    let p = choose|p: int| begins_first(steps, p);
    let ps = params_of(steps, steps[p]->Switch_block);
    if ps.len() == args.len() {
        Some(Spot { pc: p + 1, regs: bound(Map::empty(), ps, args), world: w })
    } else {
        None
    }
}

/// What a function comes to from a position on: what it returns and what it changes,
/// where it does so within `fuel` steps.
pub open spec fn run(e: Setting, id: u32, s: Spot, fuel: nat) -> Option<(Val, World)>
    decreases fuel, 1nat,
{
    let steps = e.code[id];
    if fuel == 0 || !e.code.dom().contains(id) || !(0 <= s.pc < steps.len()) {
        None
    } else {
        match steps[s.pc] {
            Step::Return { args } => match vals(s.regs, args) {
                Some(vs) => if vs.len() == 0 {
                    Some((Val::Int(0), s.world))
                } else if vs.len() == 1 {
                    Some((vs[0], s.world))
                } else {
                    None
                },
                None => None,
            },
            Step::Jump { to, args } => match jumped(steps, s, to, args) {
                Some(t) => run(e, id, t, (fuel - 1) as nat),
                None => None,
            },
            Step::Brif { c, yes, yes_args, no, no_args } => match val(s.regs, c) {
                Some(Val::Int(x)) => match if x != 0 {
                    jumped(steps, s, yes, yes_args)
                } else {
                    jumped(steps, s, no, no_args)
                } {
                    Some(t) => run(e, id, t, (fuel - 1) as nat),
                    None => None,
                },
                _ => None,
            },
            Step::Call { func, args, r } => if e.code.dom().contains(func) {
                match vals(s.regs, args) {
                    Some(vs) => match entered(e.code[func], vs, s.world) {
                        Some(t) => match run(e, func, t, (fuel - 1) as nat) {
                            Some((v, w)) => run(
                                e,
                                id,
                                Spot { pc: s.pc + 1, regs: s.regs.insert(r, Reg { val: v, width: 8 }), world: w },
                                (fuel - 1) as nat,
                            ),
                            None => None,
                        },
                        None => None,
                    },
                    None => None,
                }
            } else {
                run_on(act(e, id, steps[s.pc], s.regs, s.world), e, id, s.pc, fuel)
            },
            _ => run_on(act(e, id, steps[s.pc], s.regs, s.world), e, id, s.pc, fuel),
        }
    }
}

/// What a function comes to after a step.
pub open spec fn run_on(
    r: Option<(Map<u32, Reg>, World)>,
    e: Setting,
    id: u32,
    pc: int,
    fuel: nat,
) -> Option<(Val, World)>
    decreases fuel, 0nat,
{
    match r {
        Some((regs, world)) => if fuel == 0 {
            None
        } else {
            run(e, id, Spot { pc: pc + 1, regs, world }, (fuel - 1) as nat)
        },
        None => None,
    }
}

// ---------------------------------------------------------------------------
// One instruction.
// ---------------------------------------------------------------------------

/// Whether the instruction at a position is the address of a key, and has a number.
pub open spec fn key_number(n: Numbers, f: FuncV, b: int, k: int, r: u32) -> bool {
    &&& 0 <= b < f.blocks.len()
    &&& 0 <= k < f.blocks[b].insts.len()
    &&& f.blocks[b].insts[k] is Key
    &&& n.insts[b][k] == Some(r)
}

/// The bytes that the constant of a number is the address of.
pub open spec fn key_of(n: Numbers, f: FuncV, r: u32) -> Option<Seq<u8>> {
    if exists|b: int, k: int| key_number(n, f, b, k, r) {
        let (b, k) = choose|b: int, k: int| key_number(n, f, b, k, r);
        Some(vstd::utf8::encode_utf8(f.keys[f.blocks[b].insts[k]->Key_0 as int]))
    } else {
        None
    }
}

/// Whether a setting is right for a function: what it calls from outside is there, the
/// bytes of its keys lie where they should, and these addresses are taken for such.
pub open spec fn suits(e: Setting, id: u32, n: Numbers, l: Links, f: FuncV) -> bool {
    &&& forall|shim: Shim| {
        let func = l.shims[#[trigger] crate::lower::place(shim)];
        e.hooks.dom().contains(func) && e.hooks[func] == shim && !e.code.dom().contains(func)
    }
    &&& l.keys.len() == f.keys.len()
    &&& forall|k: int|
        0 <= k < l.keys.len() ==> (e.kept)(#[trigger] l.keys[k], vstd::utf8::encode_utf8(f.keys[k]))
    &&& forall|r: u32| #[trigger] (e.names)(id, r) == key_of(n, f, r)
}

/// Whether a numbered value is what a value is.
pub open spec fn same(n: Numbers, f: FuncV, regs: Map<u32, Reg>, vals: Map<Value, Val>, v: Value) -> bool {
    vals.dom().contains(v) && crate::lower::known(n, v) ==> {
        let r = crate::lower::num(n, v);
        regs.dom().contains(r) && regs[r].val == vals[v] && crate::lower::sized(f, v, regs[r].width)
    }
}

/// Whether numbered values are what values are, as far as they have numbers.
pub open spec fn agree(n: Numbers, f: FuncV, regs: Map<u32, Reg>, vals: Map<Value, Val>) -> bool {
    forall|v: Value| #[trigger] same(n, f, regs, vals, v)
}

proof fn lemma_vals(n: Numbers, f: FuncV, regs: Map<u32, Reg>, m: Map<Value, Val>, a: crate::ir::Args)
    requires
        agree(n, f, regs, m),
        crate::lower::all_known(n, a),
    ensures
        match a {
            crate::ir::Args::Zero => vals(regs, crate::lower::nums(n, a)) == Some(Seq::<Val>::empty()),
            crate::ir::Args::One(x) => m.dom().contains(x) ==> vals(regs, crate::lower::nums(n, a)) == Some(
                seq![m[x]],
            ),
            crate::ir::Args::Two(x, y) => m.dom().contains(x) && m.dom().contains(y) ==> vals(
                regs,
                crate::lower::nums(n, a),
            ) == Some(seq![m[x], m[y]]),
            crate::ir::Args::Three(x, y, z) => m.dom().contains(x) && m.dom().contains(y) && m.dom().contains(z)
                ==> vals(regs, crate::lower::nums(n, a)) == Some(seq![m[x], m[y], m[z]]),
        },
{
    match a {
        crate::ir::Args::Zero => {},
        crate::ir::Args::One(x) => lemma_vals_one(n, f, regs, m, x),
        crate::ir::Args::Two(x, y) => lemma_vals_two(n, f, regs, m, x, y),
        crate::ir::Args::Three(x, y, z) => lemma_vals_three(n, f, regs, m, x, y, z),
    }
}

proof fn lemma_vals_push(regs: Map<u32, Reg>, xs: Seq<u32>, x: u32, vs: Seq<Val>, v: Val)
    requires
        vals(regs, xs) == Some(vs),
        val(regs, x) == Some(v),
    ensures
        vals(regs, xs.push(x)) == Some(vs.push(v)),
{
    assert(xs.push(x).drop_last() =~= xs);
}

proof fn lemma_vals_one(n: Numbers, f: FuncV, regs: Map<u32, Reg>, m: Map<Value, Val>, x: Value)
    requires
        agree(n, f, regs, m),
        crate::lower::known(n, x),
    ensures
        m.dom().contains(x) ==> vals(regs, Seq::empty().push(crate::lower::num(n, x))) == Some(seq![m[x]]),
{
    if m.dom().contains(x) {
        assert(same(n, f, regs, m, x));
        lemma_vals_push(regs, Seq::empty(), crate::lower::num(n, x), Seq::empty(), m[x]);
        assert(seq![m[x]] =~= Seq::empty().push(m[x]));
    }
}

proof fn lemma_vals_two(n: Numbers, f: FuncV, regs: Map<u32, Reg>, m: Map<Value, Val>, x: Value, y: Value)
    requires
        agree(n, f, regs, m),
        crate::lower::known(n, x),
        crate::lower::known(n, y),
    ensures
        m.dom().contains(x) && m.dom().contains(y) ==> vals(
            regs,
            Seq::empty().push(crate::lower::num(n, x)).push(crate::lower::num(n, y)),
        ) == Some(seq![m[x], m[y]]),
{
    if m.dom().contains(x) && m.dom().contains(y) {
        lemma_vals_one(n, f, regs, m, x);
        assert(same(n, f, regs, m, y));
        lemma_vals_push(
            regs,
            Seq::empty().push(crate::lower::num(n, x)),
            crate::lower::num(n, y),
            seq![m[x]],
            m[y],
        );
        assert(seq![m[x], m[y]] =~= seq![m[x]].push(m[y]));
    }
}

proof fn lemma_vals_three(
    n: Numbers,
    f: FuncV,
    regs: Map<u32, Reg>,
    m: Map<Value, Val>,
    x: Value,
    y: Value,
    z: Value,
)
    requires
        agree(n, f, regs, m),
        crate::lower::known(n, x),
        crate::lower::known(n, y),
        crate::lower::known(n, z),
    ensures
        m.dom().contains(x) && m.dom().contains(y) && m.dom().contains(z) ==> vals(
            regs,
            Seq::empty().push(crate::lower::num(n, x)).push(crate::lower::num(n, y)).push(
                crate::lower::num(n, z),
            ),
        ) == Some(seq![m[x], m[y], m[z]]),
{
    if m.dom().contains(x) && m.dom().contains(y) && m.dom().contains(z) {
        lemma_vals_two(n, f, regs, m, x, y);
        assert(same(n, f, regs, m, z));
        lemma_vals_push(
            regs,
            Seq::empty().push(crate::lower::num(n, x)).push(crate::lower::num(n, y)),
            crate::lower::num(n, z),
            seq![m[x], m[y]],
            m[z],
        );
        assert(seq![m[x], m[y], m[z]] =~= seq![m[x], m[y]].push(m[z]));
    }
}

/// With the value of an instruction, numbered values are still what values are.
proof fn lemma_agree_more(
    n: Numbers,
    f: FuncV,
    regs: Map<u32, Reg>,
    m: Map<Value, Val>,
    v: Value,
    x: Val,
    width: u8,
)
    requires
        crate::lower::one_to_one(n),
        crate::lower::known(n, v),
        agree(n, f, regs, m),
        crate::lower::sized(f, v, width),
    ensures
        agree(n, f, regs.insert(crate::lower::num(n, v), Reg { val: x, width }), m.insert(v, x)),
{
    let r = crate::lower::num(n, v);
    let more = regs.insert(r, Reg { val: x, width });
    assert forall|u: Value| #[trigger] same(n, f, more, m.insert(v, x), u) by {
        assert(same(n, f, regs, m, u));
        if u != v && crate::lower::known(n, u) {
            assert(crate::lower::num(n, u) != r);
        }
    }
}

/// A value without a number changes nothing.
proof fn lemma_agree_unknown(n: Numbers, f: FuncV, regs: Map<u32, Reg>, m: Map<Value, Val>, v: Value, x: Val)
    requires
        !crate::lower::known(n, v),
        agree(n, f, regs, m),
    ensures
        agree(n, f, regs, m.insert(v, x)),
{
    assert forall|u: Value| #[trigger] same(n, f, regs, m.insert(v, x), u) by {
        assert(same(n, f, regs, m, u));
    }
}

proof fn lemma_pow()
    ensures
        pow256(8) == 0x1_0000_0000_0000_0000,
        pow256(1) == 256,
{
    reveal_with_fuel(pow256, 9);
}

/// The bits of truth values.
proof fn lemma_bits(x: int, y: int)
    requires
        0 <= x <= 1,
        0 <= y <= 1,
    ensures
        either(Val::Int(x), Val::Int(y)) == Some(truth(x == 1 || y == 1)),
        both(Val::Int(x), Val::Int(y)) == Some(truth(x == 1 && y == 1)),
{
    let a = x as u64;
    let b = y as u64;
    assert(a | b == (if a == 1 || b == 1 {
        1u64
    } else {
        0u64
    })) by (bit_vector)
        requires
            a <= 1,
            b <= 1,
    ;
    assert(a & b == (if a == 1 && b == 1 {
        1u64
    } else {
        0u64
    })) by (bit_vector)
        requires
            a <= 1,
            b <= 1,
    ;
}

/// The number of a key's address belongs to no other constant.
proof fn lemma_key(n: Numbers, f: FuncV, b: int, k: int)
    requires
        crate::lower::numbers_all(n, f),
        0 <= b < f.blocks.len() <= usize::MAX,
        0 <= k < f.blocks[b].insts.len(),
        crate::lower::gives_value(f.blocks[b].insts[k]),
        forall|c: int| 0 <= c < f.blocks.len() ==> (#[trigger] f.blocks[c]).insts.len() <= usize::MAX,
    ensures
        ({
            let r = n.insts[b][k]->0;
            match f.blocks[b].insts[k] {
                Inst::Key(j) => key_of(n, f, r) == Some(vstd::utf8::encode_utf8(f.keys[j as int])),
                _ => key_of(n, f, r) is None,
            }
        }),
{
    let r = n.insts[b][k]->0;
    assert(n.insts[b].len() == f.blocks[b].insts.len());
    assert(n.insts[b][k] is Some);
    assert forall|c: int, j: int| key_number(n, f, c, j, r) implies c == b && j == k by {
        assert(n.insts[c].len() == f.blocks[c].insts.len());
        let u = Value::Inst(c as usize, j as usize);
        let v = Value::Inst(b as usize, k as usize);
        assert(crate::lower::known(n, u) && crate::lower::known(n, v));
        assert(crate::lower::num(n, u) == crate::lower::num(n, v));
    }
    if f.blocks[b].insts[k] is Key {
        assert(key_number(n, f, b, k, r));
    }
}

/// What is asked of code at an instruction.
pub open spec fn at_inst(e: Setting, id: u32, n: Numbers, l: Links, f: FuncV, b: int, k: int) -> bool {
    &&& crate::lower::numbers_all(n, f)
    &&& crate::lower::stores_fit(f)
    &&& suits(e, id, n, l, f)
    &&& 0 <= b < f.blocks.len() <= usize::MAX
    &&& forall|c: int| 0 <= c < f.blocks.len() ==> (#[trigger] f.blocks[c]).insts.len() <= usize::MAX
    &&& 0 <= k < f.blocks[b].insts.len()
    &&& crate::lower::can_step(n, l, f.blocks[b].insts[k])
}

/// An instruction and the step that hands it over come to the same: the step, on
/// numbered values that are what the instruction's values are, gives the value that
/// the instruction gives, under the instruction's number, and changes what it changes.
#[verifier::spinoff_prover]
#[verifier::rlimit(80)]
pub proof fn law_step_does_what_instruction_means(
    e: Setting,
    id: u32,
    n: Numbers,
    l: Links,
    f: FuncV,
    b: int,
    k: int,
    regs: Map<u32, Reg>,
    m: Map<Value, Val>,
    w: World,
)
    requires
        at_inst(e, id, n, l, f, b, k),
        agree(n, f, regs, m),
        crate::ir::exec(f.blocks[b].insts[k], m, w, f.keys) is Some,
    ensures
        ({
            let i = f.blocks[b].insts[k];
            let (x, after) = crate::ir::exec(i, m, w, f.keys)->0;
            let s = crate::lower::step(n, l, crate::lower::number_at(n, b, k), i);
            act(e, id, s, regs, w) matches Some((more, then)) && then == after && agree(
                n,
                f,
                more,
                m.insert(Value::Inst(b as usize, k as usize), x),
            )
        }),
{
    reveal(crate::ir::exec);
    reveal(crate::lower::step);
    reveal(crate::lower::can_step);
    let i = f.blocks[b].insts[k];
    let v = Value::Inst(b as usize, k as usize);
    let (x, after) = crate::ir::exec(i, m, w, f.keys)->0;
    let r = crate::lower::number_at(n, b, k);
    let s = crate::lower::step(n, l, r, i);
    assert(n.insts[b].len() == f.blocks[b].insts.len());
    assert(n.insts[b][k] is Some <==> crate::lower::gives_value(i));
    assert(crate::lower::known(n, v) <==> crate::lower::gives_value(i));
    assert(forall|u: Value| #[trigger] same(n, f, regs, m, u));
    crate::lower::lemma_gives_width(f, v, i);
    lemma_pow();
    if crate::lower::gives_value(i) {
        assert(crate::lower::num(n, v) == r);
        lemma_key(n, f, b, k);
        assert forall|val: Val, width: u8| crate::lower::sized(f, v, width) implies #[trigger] agree(
            n,
            f,
            regs.insert(r, Reg { val, width }),
            m.insert(v, val),
        ) by {
            lemma_agree_more(n, f, regs, m, v, val, width);
        }
    } else {
        lemma_agree_unknown(n, f, regs, m, v, x);
    }
    match i {
        Inst::Key(j) => {
            let a = l.keys[j as int];
            assert((a as i64) as u64 == a) by (bit_vector);
            assert((e.kept)(a, vstd::utf8::encode_utf8(f.keys[j as int])));
            assert((e.names)(id, r) == key_of(n, f, r));
            assert(crate::lower::sized(f, v, 8));
            assert(x == Val::Ptr(Region::Data(vstd::utf8::encode_utf8(f.keys[j as int])), 0));
            assert(s == Step::Iconst { width: 8, v: a as i64, r });
            assert(act(e, id, s, regs, w) == Some((regs.insert(r, Reg { val: x, width: 8 }), w)));
        },
        Inst::Iadd(p, q) => {
            assert(same(n, f, regs, m, p) && same(n, f, regs, m, q));
        },
        Inst::Isub(p, q) => {
            assert(same(n, f, regs, m, p) && same(n, f, regs, m, q));
        },
        Inst::Imul(p, q) => {
            assert(same(n, f, regs, m, p) && same(n, f, regs, m, q));
        },
        Inst::Bor(p, q) => {
            assert(same(n, f, regs, m, p) && same(n, f, regs, m, q));
            lemma_bits(m[p]->Int_0, m[q]->Int_0);
        },
        Inst::Band(p, q) => {
            assert(same(n, f, regs, m, p) && same(n, f, regs, m, q));
            lemma_bits(m[p]->Int_0, m[q]->Int_0);
        },
        Inst::IaddImm(p, _) => {
            assert(same(n, f, regs, m, p));
        },
        Inst::ImulImm(p, _) => {
            assert(same(n, f, regs, m, p));
        },
        Inst::Ineg(p) => {
            assert(same(n, f, regs, m, p));
        },
        Inst::Test(_, p, q) => {
            assert(same(n, f, regs, m, p) && same(n, f, regs, m, q));
        },
        Inst::TestImm(_, p, _) => {
            assert(same(n, f, regs, m, p));
        },
        Inst::Select(c, p, q) => {
            assert(same(n, f, regs, m, c) && same(n, f, regs, m, p) && same(n, f, regs, m, q));
        },
        Inst::Uextend(p) => {
            assert(same(n, f, regs, m, p));
        },
        Inst::Ireduce(_, p) => {
            assert(same(n, f, regs, m, p));
        },
        Inst::Load { addr, .. } => {
            assert(same(n, f, regs, m, addr));
        },
        Inst::Store { width, val, addr, .. } => {
            assert(same(n, f, regs, m, val) && same(n, f, regs, m, addr));
            assert(crate::lower::stores_all(f, f.blocks[b].insts[k]));
            crate::lower::lemma_one_width(f, val, width, regs[crate::lower::num(n, val)].width);
        },
        Inst::Bitcast(p) => {
            assert(same(n, f, regs, m, p));
        },
        Inst::Fdemote(p) => {
            assert(same(n, f, regs, m, p));
        },
        Inst::MapNew { at, dst } => {
            assert(same(n, f, regs, m, at));
            lemma_vals_one(n, f, regs, m, dst);
        },
        Inst::MapInsert { at, dst, key, val } => {
            assert(same(n, f, regs, m, at));
            lemma_vals_three(n, f, regs, m, dst, key, val);
        },
        Inst::Call(shim, args) => {
            lemma_vals(n, f, regs, m, args);
            let p = crate::lower::place(shim);
            assert(act(e, id, s, regs, w) == Some((regs.insert(r, Reg { val: x, width: 8 }), after)));
        },
        Inst::Iconst(c) => {
            assert(act(e, id, s, regs, w) == Some((regs.insert(r, Reg { val: x, width: 8 }), w)));
        },
        Inst::False => {
            assert(act(e, id, s, regs, w) == Some((regs.insert(r, Reg { val: x, width: 1 }), w)));
        },
        Inst::Scratch => {
            assert(act(e, id, s, regs, w) == Some((regs.insert(r, Reg { val: x, width: 8 }), w)));
        },
        _ => {},
    }
}

// ---------------------------------------------------------------------------
// Where steps stand.
// ---------------------------------------------------------------------------

proof fn lemma_prefix(n: Numbers, l: Links, f: FuncV, order: Seq<usize>, i: nat, j: nat)
    requires
        i <= j,
    ensures
        ({
            let a = crate::lower::func_steps(n, l, f, order, i);
            let b = crate::lower::func_steps(n, l, f, order, j);
            a.len() <= b.len() && forall|p: int| 0 <= p < a.len() ==> #[trigger] b[p] == a[p]
        }),
    decreases j,
{
    if i < j {
        lemma_prefix(n, l, f, order, i, (j - 1) as nat);
    }
}

/// A block's steps stand one after the other.
proof fn lemma_block_at(n: Numbers, l: Links, f: FuncV, order: Seq<usize>, j: nat, total: nat)
    requires
        j < total,
    ensures
        ({
            let at = crate::lower::func_steps(n, l, f, order, j).len() as int;
            let all = crate::lower::func_steps(n, l, f, order, total);
            let part = crate::lower::block_steps(n, l, f, order[j as int] as int);
            at + part.len() <= all.len() && forall|i: int| 0 <= i < part.len() ==> #[trigger] all[at + i] == part[i]
        }),
{
    lemma_prefix(n, l, f, order, j + 1, total);
    let at = crate::lower::func_steps(n, l, f, order, j).len() as int;
    let all = crate::lower::func_steps(n, l, f, order, total);
    let some = crate::lower::func_steps(n, l, f, order, j + 1);
    let part = crate::lower::block_steps(n, l, f, order[j as int] as int);
    assert forall|i: int| 0 <= i < part.len() implies #[trigger] all[at + i] == part[i] by {
        assert(some[at + i] == part[i]);
        assert(all[at + i] == some[at + i]);
    }
}

proof fn lemma_openings_plain(n: Numbers, j: nat)
    ensures
        forall|p: int|
            0 <= p < crate::lower::openings(n, j).len() ==> crate::lower::no_block(
                #[trigger] crate::lower::openings(n, j)[p],
            ),
    decreases j,
{
    if j > 0 {
        lemma_openings_plain(n, (j - 1) as nat);
        let a = crate::lower::openings(n, (j - 1) as nat);
        let all = crate::lower::openings(n, j);
        assert forall|p: int| 0 <= p < all.len() implies crate::lower::no_block(#[trigger] all[p]) by {
            if p < a.len() {
                assert(all[p] == a[p]);
            } else {
                assert(all[p] == crate::lower::opening(n, j - 1)[p - a.len()]);
            }
        }
    }
}

/// What a block's steps are made of.
proof fn lemma_block_parts(n: Numbers, l: Links, f: FuncV, b: int)
    ensures
        ({
            let part = crate::lower::block_steps(n, l, f, b);
            let len = f.blocks[b].insts.len();
            &&& part.len() == len + 2
            &&& part[0] == (Step::Switch { block: n.blocks[b] })
            &&& part[len as int + 1] == crate::lower::end_step(n, f.blocks[b].term->0)
            &&& forall|k: int|
                0 <= k < len ==> #[trigger] part[k + 1] == crate::lower::step(
                    n,
                    l,
                    crate::lower::number_at(n, b, k),
                    f.blocks[b].insts[k],
                )
            &&& forall|p: int| 0 < p < part.len() ==> !((#[trigger] part[p]) is Switch) && !(part[p] is Param)
        }),
{
    let part = crate::lower::block_steps(n, l, f, b);
    let len = f.blocks[b].insts.len();
    reveal(crate::lower::step);
    reveal(crate::lower::end_step);
    assert forall|p: int| 0 < p < part.len() implies !((#[trigger] part[p]) is Switch) && !(part[p] is Param) by {
        if p <= len {
            assert(part[p] == crate::lower::step(
                n,
                l,
                crate::lower::number_at(n, b, p - 1),
                f.blocks[b].insts[p - 1],
            ));
        }
    }
}

/// Only blocks begin with a switch.
proof fn lemma_switches(n: Numbers, l: Links, f: FuncV, order: Seq<usize>, total: nat, p: int)
    requires
        0 <= p < crate::lower::func_steps(n, l, f, order, total).len(),
        crate::lower::func_steps(n, l, f, order, total)[p] is Switch,
    ensures
        exists|j: nat|
            j < total && p == #[trigger] crate::lower::func_steps(n, l, f, order, j).len()
                && crate::lower::func_steps(n, l, f, order, total)[p] == (Step::Switch {
                block: n.blocks[order[j as int] as int],
            }),
    decreases total,
{
    lemma_openings_plain(n, f.blocks.len());
    if total > 0 {
        let last = (total - 1) as nat;
        let a = crate::lower::func_steps(n, l, f, order, last);
        let all = crate::lower::func_steps(n, l, f, order, total);
        let b = order[last as int] as int;
        lemma_block_parts(n, l, f, b);
        if p < a.len() {
            assert(all[p] == a[p]);
            lemma_switches(n, l, f, order, last, p);
        } else {
            assert(all[p] == crate::lower::block_steps(n, l, f, b)[p - a.len()]);
            assert(p == a.len());
        }
    }
}

proof fn lemma_params_join(a: Seq<Step>, b: Seq<Step>, block: u32)
    ensures
        params_of(a + b, block) == params_of(a, block) + params_of(b, block),
    decreases b.len(),
{
    if b.len() == 0 {
        assert(a + b =~= a);
        assert(params_of(a, block) + params_of(b, block) =~= params_of(a, block));
    } else {
        assert((a + b).drop_last() =~= a + b.drop_last());
        assert((a + b).last() == b.last());
        lemma_params_join(a, b.drop_last(), block);
        assert(params_of(a + b, block) =~= params_of(a, block) + params_of(b, block));
    }
}

proof fn lemma_params_none(a: Seq<Step>, block: u32)
    requires
        forall|p: int|
            0 <= p < a.len() ==> !((#[trigger] a[p]) matches Step::Param { block: c, .. } && c == block),
    ensures
        params_of(a, block) == Seq::<u32>::empty(),
    decreases a.len(),
{
    if a.len() > 0 {
        let _ = a[a.len() - 1];
        assert forall|p: int| 0 <= p < a.drop_last().len() implies !((#[trigger] a.drop_last()[p]) matches Step::Param {
            block: c,
            ..
        } && c == block) by {
            assert(a.drop_last()[p] == a[p]);
        }
        lemma_params_none(a.drop_last(), block);
    }
}

proof fn lemma_params_opening(n: Numbers, c: int, i: nat)
    requires
        i <= n.params[c].len(),
    ensures
        params_of(crate::lower::opening(n, c).take(i as int + 1), n.blocks[c]) == n.params[c].take(i as int),
    decreases i,
{
    let all = crate::lower::opening(n, c);
    let a = all.take(i as int + 1);
    if i == 0 {
        lemma_params_none(a, n.blocks[c]);
        assert(n.params[c].take(0) =~= Seq::empty());
    } else {
        lemma_params_opening(n, c, (i - 1) as nat);
        assert(a.drop_last() =~= all.take(i as int));
        assert(n.params[c].take(i as int) =~= n.params[c].take(i - 1).push(n.params[c][i - 1]));
    }
}

proof fn lemma_params_openings(n: Numbers, j: nat, b: int)
    requires
        crate::lower::one_to_one(n),
        j <= n.blocks.len(),
        0 <= b < n.blocks.len(),
    ensures
        params_of(crate::lower::openings(n, j), n.blocks[b]) == if b < j {
            n.params[b]
        } else {
            Seq::<u32>::empty()
        },
    decreases j,
{
    if j > 0 {
        let c = j - 1;
        lemma_params_openings(n, (j - 1) as nat, b);
        let head = crate::lower::openings(n, (j - 1) as nat);
        let tail = crate::lower::opening(n, c);
        lemma_params_join(head, tail, n.blocks[b]);
        if c == b {
            lemma_params_opening(n, c, n.params[c].len());
            assert(tail.take(n.params[c].len() as int + 1) =~= tail);
            assert(n.params[c].take(n.params[c].len() as int) =~= n.params[c]);
            assert(Seq::<u32>::empty() + n.params[b] =~= n.params[b]);
        } else {
            assert(n.blocks[b] != n.blocks[c]);
            lemma_params_none(tail, n.blocks[b]);
            let head_params = params_of(head, n.blocks[b]);
            assert(head_params + Seq::<u32>::empty() =~= head_params);
        }
    }
}

proof fn lemma_params_all(n: Numbers, l: Links, f: FuncV, order: Seq<usize>, j: nat, b: int)
    requires
        crate::lower::one_to_one(n),
        n.blocks.len() == f.blocks.len(),
        0 <= b < n.blocks.len(),
    ensures
        params_of(crate::lower::func_steps(n, l, f, order, j), n.blocks[b]) == n.params[b],
    decreases j,
{
    if j == 0 {
        lemma_params_openings(n, f.blocks.len(), b);
    } else {
        let c = order[j - 1] as int;
        lemma_params_all(n, l, f, order, (j - 1) as nat, b);
        let head = crate::lower::func_steps(n, l, f, order, (j - 1) as nat);
        let tail = crate::lower::block_steps(n, l, f, c);
        lemma_block_parts(n, l, f, c);
        lemma_params_join(head, tail, n.blocks[b]);
        lemma_params_none(tail, n.blocks[b]);
        assert(params_of(head, n.blocks[b]) + Seq::<u32>::empty() =~= params_of(head, n.blocks[b]));
    }
}

/// Where a block begins among the steps of a function.
pub open spec fn start(n: Numbers, l: Links, f: FuncV, order: Seq<usize>, b: int) -> int {
    let j = choose|j: int| 0 <= j < order.len() && #[trigger] order[j] == b;
    crate::lower::func_steps(n, l, f, order, j as nat).len() as int
}

/// Whether a function with code is what code says, with the functions that the code
/// calls under some numbers.
pub open spec fn laid(e: Setting, ids: Seq<u32>, id: u32, f: FuncV, n: Numbers, l: Links, order: Seq<usize>) -> bool {
    &&& e.code.dom().contains(id)
    &&& crate::jit::spelled_as(e.code[id], l, f, n, order)
    &&& suits(e, id, n, l, f)
    &&& l.funcs == ids
}

pub open spec fn is_laid(e: Setting, ids: Seq<u32>, id: u32, f: FuncV) -> bool {
    exists|n: Numbers, l: Links, order: Seq<usize>| #[trigger] laid(e, ids, id, f, n, l, order)
}

/// A block's steps are where the block begins, and a jump to it leads there.
proof fn lemma_start(n: Numbers, l: Links, f: FuncV, order: Seq<usize>, steps: Seq<Step>, b: int)
    requires
        crate::jit::spelled_as(steps, l, f, n, order),
        0 <= b < f.blocks.len(),
    ensures
        ({
            let at = start(n, l, f, order, b);
            let len = f.blocks[b].insts.len();
            &&& 0 <= at
            &&& at + len + 2 <= steps.len()
            &&& beginning(steps, n.blocks[b]) == at
            &&& steps[at + 1 + len] == crate::lower::end_step(n, f.blocks[b].term->0)
            &&& forall|k: int|
                0 <= k < len ==> #[trigger] steps[at + 1 + k] == crate::lower::step(
                    n,
                    l,
                    crate::lower::number_at(n, b, k),
                    f.blocks[b].insts[k],
                )
            &&& params_of(steps, n.blocks[b]) == n.params[b]
            &&& b == 0 ==> begins_first(steps, at)
        }),
{
    assert(crate::lower::comes_up(order, b));
    let j = choose|j: int| 0 <= j < order.len() && #[trigger] order[j] == b;
    let at = start(n, l, f, order, b);
    let len = f.blocks[b].insts.len();
    lemma_block_at(n, l, f, order, j as nat, order.len());
    lemma_block_parts(n, l, f, b);
    let part = crate::lower::block_steps(n, l, f, b);
    assert(steps[at + 0] == part[0]);
    assert(steps[at + (len + 1)] == part[len as int + 1]);
    assert forall|k: int| 0 <= k < len implies #[trigger] steps[at + 1 + k] == crate::lower::step(
        n,
        l,
        crate::lower::number_at(n, b, k),
        f.blocks[b].insts[k],
    ) by {
        assert(steps[at + (k + 1)] == part[k + 1]);
    }
    lemma_params_all(n, l, f, order, order.len(), b);
    assert(begins(steps, n.blocks[b], at));
    assert forall|p: int| begins(steps, n.blocks[b], p) implies p == at by {
        lemma_switches(n, l, f, order, order.len(), p);
        let i = choose|i: nat|
            i < order.len() && p == #[trigger] crate::lower::func_steps(n, l, f, order, i).len() && steps[p]
                == (Step::Switch { block: n.blocks[order[i as int] as int] });
        assert(n.blocks[order[i as int] as int] == n.blocks[b]);
        if order[i as int] != b {
            if (order[i as int] as int) < b {
                assert(n.blocks[order[i as int] as int] != n.blocks[b]);
            } else {
                assert(n.blocks[b] != n.blocks[order[i as int] as int]);
            }
        }
        if i != j {
            if i < j {
                assert(order[i as int] != order[j]);
            } else {
                assert(order[j] != order[i as int]);
            }
        }
    }
    if b == 0 {
        if j > 0 {
            assert(order[0] != order[j]);
        }
        lemma_openings_plain(n, f.blocks.len());
        lemma_prefix(n, l, f, order, 0, order.len());
        let head = crate::lower::openings(n, f.blocks.len());
        assert forall|q: int| 0 <= q < at implies !((#[trigger] steps[q]) is Switch) by {
            assert(steps[q] == head[q]);
            assert(crate::lower::no_block(head[q]));
        }
    }
}

proof fn lemma_openings_len(n: Numbers, j: nat)
    ensures
        crate::lower::openings(n, j).len() >= j,
    decreases j,
{
    if j > 0 {
        lemma_openings_len(n, (j - 1) as nat);
    }
}

/// Positions in a function that is handed over are machine numbers.
proof fn lemma_sizes(n: Numbers, l: Links, f: FuncV, order: Seq<usize>, steps: Seq<Step>)
    requires
        crate::jit::spelled_as(steps, l, f, n, order),
    ensures
        f.blocks.len() <= usize::MAX,
        forall|c: int| 0 <= c < f.blocks.len() ==> (#[trigger] f.blocks[c]).insts.len() <= usize::MAX,
{
    lemma_openings_len(n, f.blocks.len());
    lemma_prefix(n, l, f, order, 0, order.len());
    assert forall|c: int| 0 <= c < f.blocks.len() implies (#[trigger] f.blocks[c]).insts.len() <= usize::MAX by {
        lemma_start(n, l, f, order, steps, c);
    }
}

// ---------------------------------------------------------------------------
// Whole functions.
// ---------------------------------------------------------------------------

/// Values for parameters with numbers of their own.
proof fn lemma_bound(regs: Map<u32, Reg>, ps: Seq<u32>, vs: Seq<Val>)
    requires
        ps.len() == vs.len(),
        forall|i: int, j: int| 0 <= i < j < ps.len() ==> #[trigger] ps[i] != #[trigger] ps[j],
    ensures
        forall|i: int|
            0 <= i < ps.len() ==> bound(regs, ps, vs).dom().contains(#[trigger] ps[i]) && bound(regs, ps, vs)[ps[i]]
                == (Reg { val: vs[i], width: 8 }),
        forall|x: u32|
            !ps.contains(x) ==> #[trigger] bound(regs, ps, vs).dom().contains(x) == regs.dom().contains(x) && bound(
                regs,
                ps,
                vs,
            )[x] == regs[x],
    decreases ps.len(),
{
    if ps.len() > 0 {
        let p = ps.drop_last();
        let v = vs.drop_last();
        assert forall|i: int, j: int| 0 <= i < j < p.len() implies #[trigger] p[i] != #[trigger] p[j] by {
            assert(ps[i] != ps[j]);
        }
        lemma_bound(regs, p, v);
        let all = bound(regs, ps, vs);
        let some = bound(regs, p, v);
        assert forall|i: int| 0 <= i < ps.len() implies all.dom().contains(#[trigger] ps[i]) && all[ps[i]] == (Reg {
            val: vs[i],
            width: 8,
        }) by {
            if i < p.len() {
                assert(p[i] == ps[i]);
                assert(ps[i] != ps[ps.len() - 1]);
            }
        }
        assert forall|x: u32| !ps.contains(x) implies #[trigger] all.dom().contains(x) == regs.dom().contains(x)
            && all[x] == regs[x] by {
            assert(x != ps.last()) by {
                assert(ps.contains(ps[ps.len() - 1]));
            }
            if p.contains(x) {
                let i = choose|i: int| 0 <= i < p.len() && p[i] == x;
                assert(ps[i] == x);
            }
            assert(some.dom().contains(x) == regs.dom().contains(x));
        }
    }
}

/// The values of a block's parameters, by position.
pub open spec fn with_params(m: Map<Value, Val>, b: usize, vs: Seq<Val>) -> Map<Value, Val>
    decreases vs.len(),
{
    if vs.len() == 0 {
        m
    } else {
        with_params(m, b, vs.drop_last()).insert(Value::Param(b, (vs.len() - 1) as usize), vs.last())
    }
}

/// Whether a value is one of a block's first parameters.
pub open spec fn in_params(b: usize, vs: Seq<Val>, v: Value) -> bool {
    v matches Value::Param(c, i) && c == b && i < vs.len()
}

proof fn lemma_with_params(m: Map<Value, Val>, b: usize, vs: Seq<Val>)
    requires
        vs.len() <= usize::MAX,
    ensures
        forall|v: Value| #[trigger]
            with_params(m, b, vs).dom().contains(v) <==> m.dom().contains(v) || in_params(b, vs, v),
        forall|v: Value| #[trigger]
            with_params(m, b, vs).dom().contains(v) ==> with_params(m, b, vs)[v] == if in_params(b, vs, v) {
                vs[v->Param_1 as int]
            } else {
                m[v]
            },
    decreases vs.len(),
{
    if vs.len() > 0 {
        let less = vs.drop_last();
        lemma_with_params(m, b, less);
        let last = Value::Param(b, (vs.len() - 1) as usize);
        let some = with_params(m, b, less);
        let all = with_params(m, b, vs);
        assert(all == some.insert(last, vs.last()));
        assert forall|v: Value| #[trigger] all.dom().contains(v) <==> m.dom().contains(v) || in_params(b, vs, v) by {
            assert(some.dom().contains(v) <==> m.dom().contains(v) || in_params(b, less, v));
            assert(in_params(b, vs, v) <==> in_params(b, less, v) || v == last);
        }
        assert forall|v: Value| #[trigger] all.dom().contains(v) implies all[v] == if in_params(b, vs, v) {
            vs[v->Param_1 as int]
        } else {
            m[v]
        } by {
            assert(some.dom().contains(v) <==> m.dom().contains(v) || in_params(b, less, v));
            assert(in_params(b, vs, v) <==> in_params(b, less, v) || v == last);
        }
    }
}

/// Numbered values for a block's parameters are what the values are.
proof fn lemma_agree_params(
    n: Numbers,
    f: FuncV,
    regs: Map<u32, Reg>,
    m: Map<Value, Val>,
    b: usize,
    vs: Seq<Val>,
)
    requires
        crate::lower::numbers_all(n, f),
        b < f.blocks.len(),
        vs.len() == n.params[b as int].len(),
        agree(n, f, regs, m),
    ensures
        agree(n, f, bound(regs, n.params[b as int], vs), with_params(m, b, vs)),
{
    let ps = n.params[b as int];
    assert(ps.len() == f.blocks[b as int].params);
    assert forall|i: int, j: int| 0 <= i < j < ps.len() implies #[trigger] ps[i] != #[trigger] ps[j] by {
        let u = Value::Param(b, i as usize);
        let v = Value::Param(b, j as usize);
        assert(crate::lower::known(n, u) && crate::lower::known(n, v));
        assert(crate::lower::num(n, u) != crate::lower::num(n, v));
    }
    lemma_bound(regs, ps, vs);
    lemma_with_params(m, b, vs);
    let more = bound(regs, ps, vs);
    let all = with_params(m, b, vs);
    assert forall|v: Value| #[trigger] same(n, f, more, all, v) by {
        assert(same(n, f, regs, m, v));
        if all.dom().contains(v) && crate::lower::known(n, v) {
            let r = crate::lower::num(n, v);
            if (v matches Value::Param(c, i) && c == b && i < vs.len()) {
                assert(ps[v->Param_1 as int] == r);
            } else {
                assert(m.dom().contains(v));
                if ps.contains(r) {
                    let i = choose|i: int| 0 <= i < ps.len() && ps[i] == r;
                    let u = Value::Param(b, i as usize);
                    assert(crate::lower::known(n, u));
                    assert(crate::lower::num(n, u) == crate::lower::num(n, v));
                    assert(u == v);
                }
                assert(more.dom().contains(r) == regs.dom().contains(r));
            }
        }
    }
}

/// Whether a function with code is at the place where code is.
pub open spec fn stands(n: Numbers, l: Links, f: FuncV, order: Seq<usize>, s: State, t: Spot) -> bool {
    &&& 0 <= s.block < f.blocks.len()
    &&& 0 <= s.at <= f.blocks[s.block].insts.len()
    &&& t.pc == start(n, l, f, order, s.block) + 1 + s.at
    &&& t.world == s.world
    &&& agree(n, f, t.regs, s.vals)
}

/// A jump leads where the code's jump leads.
proof fn lemma_jump(
    n: Numbers,
    l: Links,
    f: FuncV,
    order: Seq<usize>,
    steps: Seq<Step>,
    s: State,
    t: Spot,
    to: crate::ir::Target,
)
    requires
        crate::jit::spelled_as(steps, l, f, n, order),
        stands(n, l, f, order, s, t),
        crate::lower::all_known(n, to.args),
        crate::ir::enter(f, s, to) is Some,
    ensures
        jumped(steps, t, n.blocks[to.block as int], crate::lower::nums(n, to.args)) matches Some(u) && stands(
            n,
            l,
            f,
            order,
            crate::ir::enter(f, s, to)->0,
            u,
        ),
{
    let b = to.block;
    lemma_start(n, l, f, order, steps, b as int);
    lemma_vals(n, f, t.regs, s.vals, to.args);
    let vs = vals(t.regs, crate::lower::nums(n, to.args))->0;
    assert(n.params[b as int].len() == f.blocks[b as int].params);
    lemma_agree_params(n, f, t.regs, s.vals, b, vs);
    reveal_with_fuel(with_params, 3);
    let next = crate::ir::enter(f, s, to)->0;
    assert(with_params(s.vals, b, vs) =~= next.vals);
}

/// The values that a function is entered with.
proof fn lemma_enter(n: Numbers, l: Links, f: FuncV, order: Seq<usize>, steps: Seq<Step>, args: Seq<Val>, w: World)
    requires
        crate::jit::spelled_as(steps, l, f, n, order),
        f.blocks[0].params == args.len(),
    ensures
        entered(steps, args, w) matches Some(t) && stands(n, l, f, order, crate::ir::entry(args, w), t),
{
    lemma_start(n, l, f, order, steps, 0);
    let at = start(n, l, f, order, 0);
    let p = choose|p: int| begins_first(steps, p);
    assert(begins_first(steps, at));
    assert(p == at) by {
        if p < at {
            assert(!(steps[p] is Switch));
        }
        if at < p {
            assert(!(steps[at] is Switch));
        }
    }
    assert(begins(steps, n.blocks[0], at)) by {
        let q = beginning(steps, n.blocks[0]);
        assert(crate::lower::comes_up(order, 0));
        let j = choose|j: int| 0 <= j < order.len() && #[trigger] order[j] == 0;
        lemma_block_at(n, l, f, order, j as nat, order.len());
        lemma_block_parts(n, l, f, 0);
        assert(steps[at + 0] == crate::lower::block_steps(n, l, f, 0)[0]);
    }
    let none = Map::<Value, Val>::empty();
    assert forall|v: Value| #[trigger] same(n, f, Map::empty(), none, v) by {}
    assert(n.params[0].len() == f.blocks[0].params);
    lemma_agree_params(n, f, Map::empty(), none, 0, args);
    lemma_with_params(none, 0, args);
    assert(with_params(none, 0, args) =~= crate::ir::entry(args, w).vals);
}

/// Whether the functions that code calls are what code says.
pub open spec fn all_laid(e: Setting, ids: Seq<u32>, m: Seq<FuncV>) -> bool {
    &&& ids.len() == m.len()
    &&& forall|k: int|
        0 <= k < m.len() ==> is_laid(e, ids, #[trigger] ids[k], m[k])
}

/// A function that is handed over comes to what its code comes to.
#[verifier::spinoff_prover]
#[verifier::rlimit(80)]
proof fn lemma_runs(
    e: Setting,
    ids: Seq<u32>,
    m: Seq<FuncV>,
    id: u32,
    f: FuncV,
    n: Numbers,
    l: Links,
    order: Seq<usize>,
    s: State,
    t: Spot,
    fuel: nat,
)
    requires
        laid(e, ids, id, f, n, l, order),
        all_laid(e, ids, m),
        stands(n, l, f, order, s, t),
        crate::ir::run(m, f, s, fuel) is Some,
    ensures
        run(e, id, t, fuel) == crate::ir::run(m, f, s, fuel),
    decreases fuel, 1nat,
{
    let steps = e.code[id];
    let b = s.block;
    let len = f.blocks[b].insts.len();
    lemma_start(n, l, f, order, steps, b);
    assert(crate::lower::block_done(n, l, f, b));
    lemma_sizes(n, l, f, order, steps);
    if s.at < len {
        let k = s.at;
        let i = f.blocks[b].insts[k];
        let r = crate::lower::number_at(n, b, k);
        assert(steps[t.pc] == crate::lower::step(n, l, r, i));
        assert(crate::lower::can_step(n, l, i));
        match crate::ir::calling(f, s) {
            Some((c, args)) => {
                lemma_call(e, ids, m, id, f, n, l, order, s, t, fuel);
            },
            None => {
                assert(!(i is CallFn)) by {
                    reveal(crate::ir::exec);
                }
                law_step_does_what_instruction_means(e, id, n, l, f, b, k, t.regs, s.vals, s.world);
                let next = crate::ir::step(f, s)->0;
                let (regs, world) = act(e, id, steps[t.pc], t.regs, t.world)->0;
                let u = Spot { pc: t.pc + 1, regs, world };
                lemma_runs(e, ids, m, id, f, n, l, order, next, u, (fuel - 1) as nat);
                assert(run(e, id, t, fuel) == run(e, id, u, (fuel - 1) as nat)) by {
                    lemma_acts(e, id, n, l, f, r, i, t, fuel);
                }
            },
        }
    } else {
        reveal(crate::lower::end_step);
        reveal(crate::lower::can_end);
        assert(steps[t.pc] == crate::lower::end_step(n, f.blocks[b].term->0));
        match f.blocks[b].term->0 {
            Term::Jump(to) => {
                lemma_jump(n, l, f, order, steps, s, t, to);
                let u = jumped(steps, t, n.blocks[to.block as int], crate::lower::nums(n, to.args))->0;
                lemma_runs(e, ids, m, id, f, n, l, order, crate::ir::enter(f, s, to)->0, u, (fuel - 1) as nat);
            },
            Term::Brif(c, yes, no) => {
                assert(same(n, f, t.regs, s.vals, c));
                let to = if s.vals[c]->Int_0 != 0 {
                    yes
                } else {
                    no
                };
                lemma_jump(n, l, f, order, steps, s, t, to);
                let u = jumped(steps, t, n.blocks[to.block as int], crate::lower::nums(n, to.args))->0;
                lemma_runs(e, ids, m, id, f, n, l, order, crate::ir::enter(f, s, to)->0, u, (fuel - 1) as nat);
            },
            Term::Return(args) => {
                lemma_vals(n, f, t.regs, s.vals, args);
            },
        }
    }
}

/// A step that stays in its block and calls no function with code.
proof fn lemma_acts(e: Setting, id: u32, n: Numbers, l: Links, f: FuncV, r: u32, i: Inst, t: Spot, fuel: nat)
    requires
        fuel > 0,
        e.code.dom().contains(id),
        suits(e, id, n, l, f),
        0 <= t.pc < e.code[id].len(),
        e.code[id][t.pc] == crate::lower::step(n, l, r, i),
        !(i is CallFn),
    ensures
        run(e, id, t, fuel) == run_on(act(e, id, e.code[id][t.pc], t.regs, t.world), e, id, t.pc, fuel),
{
    reveal(crate::lower::step);
    if let Inst::Call(shim, args) = i {
        let p = crate::lower::place(shim);
        assert(!e.code.dom().contains(l.shims[p]));
    }
}

/// What a call of a function with code hands over.
proof fn lemma_call_args(
    e: Setting,
    ids: Seq<u32>,
    id: u32,
    f: FuncV,
    n: Numbers,
    l: Links,
    order: Seq<usize>,
    s: State,
    t: Spot,
) -> (xs: Seq<u32>)
    requires
        laid(e, ids, id, f, n, l, order),
        stands(n, l, f, order, s, t),
        crate::ir::calling(f, s) is Some,
    ensures
        ({
            let (c, args) = crate::ir::calling(f, s)->0;
            &&& e.code[id][t.pc] == (Step::Call {
                func: ids[c as int],
                args: xs,
                r: crate::lower::number_at(n, s.block, s.at),
            })
            &&& vals(t.regs, xs) == Some(args)
        }),
{
    reveal(crate::lower::step);
    reveal(crate::lower::can_step);
    let b = s.block;
    let i = f.blocks[b].insts[s.at];
    lemma_start(n, l, f, order, e.code[id], b);
    assert(crate::lower::block_done(n, l, f, b));
    assert(crate::lower::can_step(n, l, i));
    let (c, args) = crate::ir::calling(f, s)->0;
    let (dst, cur, end, sc) = match i {
        Inst::CallFn { func, dst, cur, end, sc } => (dst, cur, end, sc),
        _ => arbitrary(),
    };
    lemma_vals_three(n, f, t.regs, s.vals, dst, cur, end);
    assert(same(n, f, t.regs, s.vals, sc));
    let three = Seq::empty().push(crate::lower::num(n, dst)).push(crate::lower::num(n, cur)).push(
        crate::lower::num(n, end),
    );
    let some = seq![s.vals[dst], s.vals[cur], s.vals[end]];
    lemma_vals_push(t.regs, three, crate::lower::num(n, sc), some, s.vals[sc]);
    assert(args =~= some.push(s.vals[sc]));
    three.push(crate::lower::num(n, sc))
}

/// Where a call of a function with code leads back to.
proof fn lemma_call_back(
    e: Setting,
    ids: Seq<u32>,
    id: u32,
    f: FuncV,
    n: Numbers,
    l: Links,
    order: Seq<usize>,
    s: State,
    t: Spot,
    x: Val,
    w: World,
)
    requires
        laid(e, ids, id, f, n, l, order),
        stands(n, l, f, order, s, t),
        crate::ir::calling(f, s) is Some,
    ensures
        stands(
            n,
            l,
            f,
            order,
            crate::ir::resumed(s, x, w),
            Spot {
                pc: t.pc + 1,
                regs: t.regs.insert(crate::lower::number_at(n, s.block, s.at), Reg { val: x, width: 8 }),
                world: w,
            },
        ),
{
    let b = s.block;
    let k = s.at;
    lemma_sizes(n, l, f, order, e.code[id]);
    let v = Value::Inst(b as usize, k as usize);
    assert(n.insts[b].len() == f.blocks[b].insts.len());
    crate::lower::lemma_gives_width(f, v, f.blocks[b].insts[k]);
    lemma_agree_more(n, f, t.regs, s.vals, v, x, 8);
}

/// A call of a function with code.
proof fn lemma_call(
    e: Setting,
    ids: Seq<u32>,
    m: Seq<FuncV>,
    id: u32,
    f: FuncV,
    n: Numbers,
    l: Links,
    order: Seq<usize>,
    s: State,
    t: Spot,
    fuel: nat,
)
    requires
        laid(e, ids, id, f, n, l, order),
        all_laid(e, ids, m),
        stands(n, l, f, order, s, t),
        crate::ir::calling(f, s) is Some,
        crate::ir::run(m, f, s, fuel) is Some,
        fuel > 0,
    ensures
        run(e, id, t, fuel) == crate::ir::run(m, f, s, fuel),
    decreases fuel, 0nat,
{
    let r = crate::lower::number_at(n, s.block, s.at);
    let (c, args) = crate::ir::calling(f, s)->0;
    let xs = lemma_call_args(e, ids, id, f, n, l, order, s, t);
    lemma_start(n, l, f, order, e.code[id], s.block);
    let g = m[c as int];
    let func = ids[c as int];
    let less = (fuel - 1) as nat;
    assert(crate::ir::returned(f, s) is None);
    let inner = crate::ir::run(m, g, crate::ir::entry(args, s.world), less);
    assert(inner is Some);
    let (x, w) = inner->0;
    assert(is_laid(e, ids, func, g));
    let (gn, gl, go) = choose|gn: Numbers, gl: Links, go: Seq<usize>| #[trigger] laid(e, ids, func, g, gn, gl, go);
    assert(laid(e, ids, func, g, gn, gl, go));
    lemma_enter(gn, gl, g, go, e.code[func], args, s.world);
    let u = entered(e.code[func], args, s.world)->0;
    lemma_runs(e, ids, m, func, g, gn, gl, go, crate::ir::entry(args, s.world), u, less);
    let next = Spot { pc: t.pc + 1, regs: t.regs.insert(r, Reg { val: x, width: 8 }), world: w };
    lemma_call_back(e, ids, id, f, n, l, order, s, t, x, w);
    lemma_runs(e, ids, m, id, f, n, l, order, crate::ir::resumed(s, x, w), next, less);
    assert(run(e, id, t, fuel) == run(e, id, next, less));
}

/// Steps do what code means: a function that is handed over, with those that it calls,
/// in a setting that is right for all of them, comes to what its code comes to, the
/// same value and the same changes.
pub proof fn law_steps_do_what_code_means(
    e: Setting,
    ids: Seq<u32>,
    m: Seq<FuncV>,
    id: u32,
    f: FuncV,
    args: Seq<Val>,
    w: World,
    fuel: nat,
)
    requires
        is_laid(e, ids, id, f),
        all_laid(e, ids, m),
        f.blocks[0].params == args.len(),
        crate::ir::run(m, f, crate::ir::entry(args, w), fuel) is Some,
    ensures
        entered(e.code[id], args, w) matches Some(t) && run(e, id, t, fuel) == crate::ir::run(
            m,
            f,
            crate::ir::entry(args, w),
            fuel,
        ),
{
    let (n, l, order) = choose|n: Numbers, l: Links, order: Seq<usize>| #[trigger] laid(e, ids, id, f, n, l, order);
    lemma_enter(n, l, f, order, e.code[id], args, w);
    let t = entered(e.code[id], args, w)->0;
    lemma_runs(e, ids, m, id, f, n, l, order, crate::ir::entry(args, w), t, fuel);
}

} // verus!
