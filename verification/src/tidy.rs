//! Code that is in order: each instruction uses values that come before it, each
//! block is ended once, and each store is of a whole value. Functions are built in
//! order, so that whatever has been built can be handed over.
use crate::ir::{Args, FuncV, Inst, Point, Term, Value};
use vstd::prelude::*;

verus! {

/// Whether arguments hold a value.
pub open spec fn among(a: Args, v: Value) -> bool {
    match a {
        Args::Zero => false,
        Args::One(x) => v == x,
        Args::Two(x, y) => v == x || v == y,
        Args::Three(x, y, z) => v == x || v == y || v == z,
    }
}

/// Whether an instruction uses a value.
pub open spec fn uses(i: Inst, v: Value) -> bool {
    match i {
        Inst::Iconst(_) => false,
        Inst::False => false,
        Inst::Key(_) => false,
        Inst::Scratch => false,
        Inst::Iadd(x, y) => v == x || v == y,
        Inst::Isub(x, y) => v == x || v == y,
        Inst::Imul(x, y) => v == x || v == y,
        Inst::Bor(x, y) => v == x || v == y,
        Inst::Band(x, y) => v == x || v == y,
        Inst::IaddImm(x, _) => v == x,
        Inst::ImulImm(x, _) => v == x,
        Inst::Ineg(x) => v == x,
        Inst::Test(_, x, y) => v == x || v == y,
        Inst::TestImm(_, x, _) => v == x,
        Inst::Select(c, x, y) => v == c || v == x || v == y,
        Inst::Uextend(x) => v == x,
        Inst::Ireduce(_, x) => v == x,
        Inst::Load { addr, .. } => v == addr,
        Inst::Store { val, addr, .. } => v == val || v == addr,
        Inst::Bitcast(x) => v == x,
        Inst::Fdemote(x) => v == x,
        Inst::Call(_, a) => among(a, v),
        Inst::MapNew { at, dst } => v == at || v == dst,
        Inst::MapInsert { at, dst, key, val } => v == at || v == dst || v == key || v == val,
        Inst::CallFn { dst, cur, end, sc, .. } => v == dst || v == cur || v == end || v == sc,
    }
}

/// Whether the end of a block uses a value.
pub open spec fn end_uses(t: Term, v: Value) -> bool {
    match t {
        Term::Jump(to) => among(to.args, v),
        Term::Brif(c, yes, no) => v == c || among(yes.args, v) || among(no.args, v),
        Term::Return(a) => among(a, v),
    }
}

/// Whether an instruction's constants fit.
pub open spec fn constants_fit(i: Inst, keys: nat) -> bool {
    match i {
        Inst::Key(k) => k < keys,
        Inst::Ireduce(width, _) => crate::lower::is_width(width),
        Inst::Load { width, off, .. } => crate::lower::is_width(width) && off <= i32::MAX,
        Inst::Store { off, .. } => off <= i32::MAX,
        _ => true,
    }
}

/// Whether a block ends with a way to blocks that there are.
pub open spec fn leads(t: Term, blocks: nat) -> bool {
    match t {
        Term::Jump(to) => to.block < blocks,
        Term::Brif(_, yes, no) => yes.block < blocks && no.block < blocks,
        Term::Return(_) => true,
    }
}

/// Whether an instruction can be added.
pub open spec fn ready(p: Point, i: Inst) -> bool {
    &&& forall|v: Value| uses(i, v) ==> #[trigger] crate::ir::built(p.f, v)
    &&& constants_fit(i, p.f.keys.len())
    &&& i matches Inst::Store { width, val, .. } ==> crate::lower::sized(p.f, val, width)
}

/// Whether a block can be ended so.
pub open spec fn can_close(p: Point, t: Term) -> bool {
    &&& forall|v: Value| end_uses(t, v) ==> #[trigger] crate::ir::built(p.f, v)
    &&& leads(t, p.f.blocks.len())
}

/// Whether a block is among the first `j` that were ended.
pub open spec fn ended(order: Seq<usize>, j: int, b: int) -> bool {
    exists|i: int| 0 <= i < j && #[trigger] order[i] == b
}

/// Whether a value comes before an instruction of a block, `j` blocks having been
/// ended before.
pub open spec fn earlier(f: FuncV, j: int, b: int, k: int, v: Value) -> bool {
    match v {
        Value::Param(c, n) => c < f.blocks.len() && n < f.blocks[c as int].params,
        Value::Inst(c, n) => {
            &&& c < f.blocks.len()
            &&& n < f.blocks[c as int].insts.len()
            &&& crate::lower::gives_value(f.blocks[c as int].insts[n as int])
            &&& (c == b && n < k) || (c != b && ended(f.order, j, c as int))
        },
    }
}

/// Whether the instructions of a block use what comes before them.
pub open spec fn insts_ok(f: FuncV, j: int, b: int) -> bool {
    forall|k: int|
        0 <= k < f.blocks[b].insts.len() ==> inst_ok(f, j, b, k, #[trigger] f.blocks[b].insts[k])
}

pub open spec fn inst_ok(f: FuncV, j: int, b: int, k: int, i: Inst) -> bool {
    &&& forall|v: Value| uses(i, v) ==> #[trigger] earlier(f, j, b, k, v)
    &&& constants_fit(i, f.keys.len())
    &&& i matches Inst::Store { width, val, .. } ==> crate::lower::sized(f, val, width)
}

/// Whether the end of a block uses what comes before it.
pub open spec fn end_ok(f: FuncV, j: int, b: int) -> bool {
    &&& f.blocks[b].term is Some
    &&& forall|v: Value|
        end_uses(f.blocks[b].term->0, v) ==> #[trigger] earlier(
            f,
            j,
            b,
            f.blocks[b].insts.len() as int,
            v,
        )
    &&& leads(f.blocks[b].term->0, f.blocks.len())
}

/// Whether the j-th block that was ended is in order.
pub open spec fn closed_ok(f: FuncV, j: int) -> bool {
    &&& f.order[j] < f.blocks.len()
    &&& insts_ok(f, j, f.order[j] as int)
    &&& end_ok(f, j, f.order[j] as int)
}

/// Whether a block that has not been ended is as it should be.
pub open spec fn pending_ok(p: Point, b: int) -> bool {
    !ended(p.f.order, p.f.order.len() as int, b) ==> {
        &&& p.f.blocks[b].term is None
        &&& b != p.cur ==> p.f.blocks[b].insts.len() == 0
    }
}

/// Whether a function that is being built is in order.
#[verifier::opaque]
pub open spec fn tidy(p: Point) -> bool {
    &&& 0 <= p.cur < p.f.blocks.len()
    &&& p.f.order.len() == 0 ==> p.cur == 0
    &&& p.f.order.len() > 0 ==> p.f.order[0] == 0
    &&& forall|i: int, j: int|
        0 <= i < j < p.f.order.len() ==> #[trigger] p.f.order[i] != #[trigger] p.f.order[j]
    &&& forall|j: int| 0 <= j < p.f.order.len() ==> #[trigger] closed_ok(p.f, j)
    &&& forall|b: int| 0 <= b < p.f.blocks.len() ==> #[trigger] pending_ok(p, b)
    &&& crate::lower::few_params(p.f)
    &&& !ended(p.f.order, p.f.order.len() as int, p.cur) ==> insts_ok(p.f, p.f.order.len() as int, p.cur)
}

/// How many blocks have not been ended.
pub open spec fn left(p: Point) -> int {
    p.f.blocks.len() - p.f.order.len()
}

/// How many steps it takes to hand over the first `n` blocks, without those that
/// have been ended.
pub open spec fn rest(f: FuncV, n: nat) -> nat
    decreases n,
{
    if n == 0 {
        0
    } else if ended(f.order, f.order.len() as int, n - 1) {
        rest(f, (n - 1) as nat)
    } else {
        rest(f, (n - 1) as nat) + f.blocks[n - 1].insts.len() + 2
    }
}

/// How many steps it takes to hand a function over.
#[verifier::opaque]
pub open spec fn total(f: FuncV) -> nat {
    crate::lower::func_len(f, f.order, f.order.len()) + rest(f, f.blocks.len())
}

/// Whether a function calls only the first `n` of others.
#[verifier::opaque]
pub open spec fn calls_below(f: FuncV, n: int) -> bool {
    forall|b: int, k: int|
        0 <= b < f.blocks.len() && 0 <= k < f.blocks[b].insts.len() ==> call_below(
            #[trigger] f.blocks[b].insts[k],
            n,
        )
}

pub open spec fn call_below(i: Inst, n: int) -> bool {
    i matches Inst::CallFn { func, .. } ==> func < n
}

/// A function that calls only the first of others calls only the first of more.
pub(crate) proof fn lemma_calls_more(f: FuncV, n: int, m: int)
    requires
        calls_below(f, n),
        n <= m,
    ensures
        calls_below(f, m),
{
    reveal(calls_below);
    assert forall|b: int, k: int| 0 <= b < f.blocks.len() && 0 <= k < f.blocks[b].insts.len() implies call_below(
        #[trigger] f.blocks[b].insts[k],
        m,
    ) by {
        assert(call_below(f.blocks[b].insts[k], n));
    }
}

/// Whether building has added no more steps than that, and no calls.
pub open spec fn adds(p: Point, to: Point, n: int) -> bool {
    &&& tidy(p) ==> total(to.f) <= total(p.f) + n
    &&& forall|c: int| #[trigger] calls_below(p.f, c) ==> calls_below(to.f, c)
}

// ---------------------------------------------------------------------------
// Building keeps order.
// ---------------------------------------------------------------------------

proof fn lemma_earlier(f: FuncV, g: FuncV, j: int, b: int, k: int, v: Value)
    requires
        crate::ir::extends(f, g),
        earlier(f, j, b, k, v),
        0 <= j <= f.order.len(),
        f.order.len() <= g.order.len(),
        forall|i: int| 0 <= i < f.order.len() ==> #[trigger] g.order[i] == f.order[i],
    ensures
        earlier(g, j, b, k, v),
{
    match v {
        Value::Param(c, n) => {
            assert(crate::ir::block_extends(f.blocks[c as int], g.blocks[c as int]));
        },
        Value::Inst(c, n) => {
            assert(crate::ir::block_extends(f.blocks[c as int], g.blocks[c as int]));
            assert(g.blocks[c as int].insts[n as int] == f.blocks[c as int].insts[n as int]);
            if c != b {
                let i = choose|i: int| 0 <= i < j && #[trigger] f.order[i] == c;
                assert(g.order[i] == c);
            }
        },
    }
}

proof fn lemma_inst_ok(f: FuncV, g: FuncV, j: int, b: int, k: int, i: Inst)
    requires
        crate::ir::extends(f, g),
        inst_ok(f, j, b, k, i),
        0 <= j <= f.order.len(),
        f.order.len() <= g.order.len(),
        forall|i: int| 0 <= i < f.order.len() ==> #[trigger] g.order[i] == f.order[i],
    ensures
        inst_ok(g, j, b, k, i),
{
    assert forall|v: Value| uses(i, v) implies #[trigger] earlier(g, j, b, k, v) by {
        assert(earlier(f, j, b, k, v));
        lemma_earlier(f, g, j, b, k, v);
    }
    if let Inst::Store { width, val, .. } = i {
        crate::lower::lemma_sized(f, g, val, width);
    }
}

/// Blocks that were ended stay in order.
proof fn lemma_closed(f: FuncV, g: FuncV, j: int)
    requires
        crate::ir::extends(f, g),
        closed_ok(f, j),
        0 <= j < f.order.len(),
        f.order.len() <= g.order.len(),
        forall|i: int| 0 <= i < f.order.len() ==> #[trigger] g.order[i] == f.order[i],
        g.blocks[f.order[j] as int] == f.blocks[f.order[j] as int],
    ensures
        closed_ok(g, j),
{
    let b = f.order[j] as int;
    assert forall|k: int| 0 <= k < g.blocks[b].insts.len() implies inst_ok(
        g,
        j,
        b,
        k,
        #[trigger] g.blocks[b].insts[k],
    ) by {
        assert(inst_ok(f, j, b, k, f.blocks[b].insts[k]));
        lemma_inst_ok(f, g, j, b, k, f.blocks[b].insts[k]);
    }
    let n = f.blocks[b].insts.len() as int;
    assert forall|v: Value| end_uses(g.blocks[b].term->0, v) implies #[trigger] earlier(g, j, b, n, v) by {
        assert(earlier(f, j, b, n, v));
        lemma_earlier(f, g, j, b, n, v);
    }
}

/// What has been built comes before what is added.
proof fn lemma_built_earlier(p: Point, v: Value)
    requires
        tidy(p),
        crate::ir::built(p.f, v),
    ensures
        earlier(p.f, p.f.order.len() as int, p.cur, p.f.blocks[p.cur].insts.len() as int, v),
{
    reveal(tidy);
    if let Value::Inst(c, n) = v {
        if c != p.cur {
            assert(pending_ok(p, c as int));
        }
    }
}

pub(crate) proof fn lemma_new(p: Point)
    requires
        p.f.blocks.len() == 1,
        p.f.blocks[0].insts.len() == 0,
        p.f.blocks[0].term is None,
        p.f.order.len() == 0,
        p.cur == 0,
    ensures
        p.f.blocks[0].params <= crate::lower::MAX_PARAMS ==> tidy(p),
        left(p) == 1,
        total(p.f) == p.f.blocks[0].params + 3,
        calls_below(p.f, 0),
{
    reveal(tidy);
    reveal(total);
    reveal(calls_below);
    reveal_with_fuel(rest, 2);
    reveal_with_fuel(crate::lower::openings_len, 2);
    assert(!ended(p.f.order, 0, 0));
}

proof fn lemma_rest_same(f: FuncV, g: FuncV, n: nat)
    requires
        n <= f.blocks.len(),
        n <= g.blocks.len(),
        g.order == f.order,
        forall|b: int| 0 <= b < n ==> (#[trigger] g.blocks[b]).insts.len() == f.blocks[b].insts.len(),
    ensures
        rest(g, n) == rest(f, n),
    decreases n,
{
    if n > 0 {
        lemma_rest_same(f, g, (n - 1) as nat);
    }
}

proof fn lemma_func_len_same(f: FuncV, g: FuncV, order: Seq<usize>, j: nat)
    requires
        j <= order.len(),
        f.blocks.len() == g.blocks.len(),
        forall|i: int| 0 <= i < j ==> #[trigger] order[i] < f.blocks.len(),
        forall|b: int| 0 <= b < f.blocks.len() ==> (#[trigger] g.blocks[b]).params == f.blocks[b].params,
        forall|i: int|
            0 <= i < j ==> g.blocks[#[trigger] order[i] as int].insts.len() == f.blocks[order[i] as int].insts.len(),
    ensures
        crate::lower::func_len(g, order, j) == crate::lower::func_len(f, order, j),
    decreases j,
{
    if j == 0 {
        lemma_openings_same(f, g, f.blocks.len());
    } else {
        lemma_func_len_same(f, g, order, (j - 1) as nat);
        let _ = order[j - 1];
    }
}

proof fn lemma_openings_same(f: FuncV, g: FuncV, n: nat)
    requires
        n <= f.blocks.len(),
        n <= g.blocks.len(),
        forall|b: int| 0 <= b < n ==> (#[trigger] g.blocks[b]).params == f.blocks[b].params,
    ensures
        crate::lower::openings_len(g, n) == crate::lower::openings_len(f, n),
    decreases n,
{
    if n > 0 {
        lemma_openings_same(f, g, (n - 1) as nat);
    }
}

proof fn lemma_func_len_block(f: FuncV, params: usize, order: Seq<usize>, j: nat)
    requires
        j <= order.len(),
        forall|i: int| 0 <= i < j ==> #[trigger] order[i] < f.blocks.len(),
    ensures
        crate::lower::func_len(crate::ir::with_block(f, params), order, j) == crate::lower::func_len(f, order, j)
            + params + 1,
    decreases j,
{
    let g = crate::ir::with_block(f, params);
    if j == 0 {
        assert forall|b: int| 0 <= b < f.blocks.len() implies (#[trigger] g.blocks[b]).params == f.blocks[b].params by {
            assert(g.blocks[b] == f.blocks[b]);
        }
        lemma_openings_same(f, g, f.blocks.len());
    } else {
        lemma_func_len_block(f, params, order, (j - 1) as nat);
        assert(g.blocks[order[j - 1] as int] == f.blocks[order[j - 1] as int]);
    }
}

proof fn lemma_rest_more(f: FuncV, g: FuncV, c: int, n: nat)
    requires
        n <= f.blocks.len(),
        f.blocks.len() == g.blocks.len(),
        g.order == f.order,
        0 <= c < f.blocks.len(),
        !ended(f.order, f.order.len() as int, c),
        g.blocks[c].insts.len() == f.blocks[c].insts.len() + 1,
        forall|b: int|
            0 <= b < f.blocks.len() && b != c ==> (#[trigger] g.blocks[b]).insts.len() == f.blocks[b].insts.len(),
    ensures
        rest(g, n) == rest(f, n) + (if c < n {
            1int
        } else {
            0
        }),
    decreases n,
{
    if n > 0 {
        lemma_rest_more(f, g, c, (n - 1) as nat);
    }
}

proof fn lemma_rest_less(f: FuncV, g: FuncV, c: usize, n: nat)
    requires
        n <= f.blocks.len(),
        f.blocks.len() == g.blocks.len(),
        g.order == f.order.push(c),
        c < f.blocks.len(),
        !ended(f.order, f.order.len() as int, c as int),
        forall|b: int| 0 <= b < f.blocks.len() ==> (#[trigger] g.blocks[b]).insts.len() == f.blocks[b].insts.len(),
    ensures
        rest(g, n) + (if c < n {
            f.blocks[c as int].insts.len() as int + 2
        } else {
            0
        }) == rest(f, n),
    decreases n,
{
    if n > 0 {
        lemma_rest_less(f, g, c, (n - 1) as nat);
        let b = n - 1;
        let m = f.order.len() as int;
        assert(ended(g.order, m + 1, b) <==> ended(f.order, m, b) || b == c) by {
            if ended(f.order, m, b) {
                let i = choose|i: int| 0 <= i < m && #[trigger] f.order[i] == b;
                assert(g.order[i] == b);
            }
            if b == c {
                assert(g.order[m] == b);
            }
            if ended(g.order, m + 1, b) && b != c {
                let i = choose|i: int| 0 <= i < m + 1 && #[trigger] g.order[i] == b;
                assert(f.order[i] == b);
            }
        }
    }
}

pub(crate) proof fn lemma_with_block(p: Point, q: Point, params: usize)
    requires
        q == (Point { f: crate::ir::with_block(p.f, params), cur: p.cur }),
    ensures
        tidy(p) ==> total(q.f) == total(p.f) + params + 3,
        tidy(p) && params <= crate::lower::MAX_PARAMS ==> tidy(q),
        forall|c: int| #[trigger] calls_below(p.f, c) ==> calls_below(q.f, c),
{
    reveal(tidy);
    reveal(total);
    reveal(calls_below);
    assert forall|c: int| #[trigger] calls_below(p.f, c) implies calls_below(q.f, c) by {
        assert forall|b: int, k: int| 0 <= b < q.f.blocks.len() && 0 <= k < q.f.blocks[b].insts.len() implies call_below(
            #[trigger] q.f.blocks[b].insts[k],
            c,
        ) by {
            assert(q.f.blocks[b].insts[k] == p.f.blocks[b].insts[k]);
        }
    }
    if tidy(p) {
        let n = p.f.blocks.len();
        assert(crate::ir::extends(p.f, q.f));
        assert forall|j: int| 0 <= j < q.f.order.len() implies #[trigger] closed_ok(q.f, j) by {
            assert(closed_ok(p.f, j));
            lemma_closed(p.f, q.f, j);
        }
        let m = p.f.order.len() as int;
        assert(!ended(p.f.order, m, n as int)) by {
            if ended(p.f.order, m, n as int) {
                let i = choose|i: int| 0 <= i < m && #[trigger] p.f.order[i] == n;
                assert(closed_ok(p.f, i));
            }
        }
        assert forall|b: int| 0 <= b < q.f.blocks.len() implies #[trigger] pending_ok(q, b) by {
            if b < n {
                assert(pending_ok(p, b));
            }
        }
        if !ended(p.f.order, m, p.cur) {
            assert forall|k: int| 0 <= k < q.f.blocks[q.cur].insts.len() implies inst_ok(
                q.f,
                m,
                q.cur,
                k,
                #[trigger] q.f.blocks[q.cur].insts[k],
            ) by {
                assert(inst_ok(p.f, m, p.cur, k, p.f.blocks[p.cur].insts[k]));
                lemma_inst_ok(p.f, q.f, m, p.cur, k, p.f.blocks[p.cur].insts[k]);
            }
        }
        assert forall|i: int| 0 <= i < m implies #[trigger] p.f.order[i] < p.f.blocks.len() by {
            assert(closed_ok(p.f, i));
        }
        lemma_func_len_block(p.f, params, p.f.order, p.f.order.len());
        lemma_rest_same(p.f, q.f, n);
    }
}

pub(crate) proof fn lemma_with_key(p: Point, q: Point)
    requires
        q.cur == p.cur,
        q.f.blocks == p.f.blocks,
        q.f.order == p.f.order,
        q.f.keys.len() >= p.f.keys.len(),
        crate::ir::extends(p.f, q.f),
    ensures
        tidy(p) ==> tidy(q) && total(q.f) == total(p.f),
        forall|c: int| #[trigger] calls_below(p.f, c) ==> calls_below(q.f, c),
{
    reveal(tidy);
    reveal(total);
    reveal(calls_below);
    if tidy(p) {
        assert forall|j: int| 0 <= j < q.f.order.len() implies #[trigger] closed_ok(q.f, j) by {
            assert(closed_ok(p.f, j));
            lemma_closed(p.f, q.f, j);
        }
        let m = p.f.order.len() as int;
        assert forall|b: int| 0 <= b < q.f.blocks.len() implies #[trigger] pending_ok(q, b) by {
            assert(pending_ok(p, b));
        }
        if !ended(p.f.order, m, p.cur) {
            assert forall|k: int| 0 <= k < q.f.blocks[q.cur].insts.len() implies inst_ok(
                q.f,
                m,
                q.cur,
                k,
                #[trigger] q.f.blocks[q.cur].insts[k],
            ) by {
                assert(inst_ok(p.f, m, p.cur, k, p.f.blocks[p.cur].insts[k]));
                lemma_inst_ok(p.f, q.f, m, p.cur, k, p.f.blocks[p.cur].insts[k]);
            }
        }
        assert forall|i: int| 0 <= i < m implies #[trigger] p.f.order[i] < p.f.blocks.len() by {
            assert(closed_ok(p.f, i));
        }
        lemma_func_len_same(p.f, q.f, p.f.order, p.f.order.len());
        lemma_rest_same(p.f, q.f, p.f.blocks.len());
    }
}

pub(crate) proof fn lemma_with_inst(p: Point, q: Point, i: Inst)
    requires
        crate::ir::open_at(p),
        q == (Point { f: crate::ir::with_inst(p, i), cur: p.cur }),
        ready(p, i),
    ensures
        tidy(p) ==> tidy(q) && total(q.f) == total(p.f) + 1,
        forall|c: int| #[trigger] calls_below(p.f, c) && call_below(i, c) ==> calls_below(q.f, c),
{
    reveal(tidy);
    reveal(total);
    reveal(calls_below);
    let n = p.f.blocks[p.cur].insts.len() as int;
    assert forall|c: int| #[trigger] calls_below(p.f, c) && call_below(i, c) implies calls_below(q.f, c) by {
        assert forall|b: int, k: int| 0 <= b < q.f.blocks.len() && 0 <= k < q.f.blocks[b].insts.len() implies call_below(
            #[trigger] q.f.blocks[b].insts[k],
            c,
        ) by {
            if b != p.cur || k < n {
                assert(q.f.blocks[b].insts[k] == p.f.blocks[b].insts[k]);
            }
        }
    }
    if tidy(p) {
        let m = p.f.order.len() as int;
        assert(!ended(p.f.order, m, p.cur)) by {
            if ended(p.f.order, m, p.cur) {
                let j = choose|j: int| 0 <= j < m && #[trigger] p.f.order[j] == p.cur;
                assert(closed_ok(p.f, j));
            }
        }
        assert(crate::ir::extends(p.f, q.f));
        assert forall|j: int| 0 <= j < q.f.order.len() implies #[trigger] closed_ok(q.f, j) by {
            assert(closed_ok(p.f, j));
            assert(p.f.order[j] != p.cur);
            lemma_closed(p.f, q.f, j);
        }
        assert forall|b: int| 0 <= b < q.f.blocks.len() implies #[trigger] pending_ok(q, b) by {
            assert(pending_ok(p, b));
        }
        assert forall|k: int| 0 <= k < q.f.blocks[q.cur].insts.len() implies inst_ok(
            q.f,
            m,
            q.cur,
            k,
            #[trigger] q.f.blocks[q.cur].insts[k],
        ) by {
            if k < n {
                assert(q.f.blocks[q.cur].insts[k] == p.f.blocks[p.cur].insts[k]);
                assert(inst_ok(p.f, m, p.cur, k, p.f.blocks[p.cur].insts[k]));
                lemma_inst_ok(p.f, q.f, m, p.cur, k, p.f.blocks[p.cur].insts[k]);
            } else {
                assert forall|v: Value| uses(i, v) implies #[trigger] earlier(p.f, m, p.cur, n, v) by {
                    assert(crate::ir::built(p.f, v));
                    lemma_built_earlier(p, v);
                }
                lemma_inst_ok(p.f, q.f, m, p.cur, n, i);
            }
        }
        assert forall|i: int| 0 <= i < m implies #[trigger] p.f.order[i] < p.f.blocks.len() && p.f.order[i]
            != p.cur by {
            assert(closed_ok(p.f, i));
        }
        lemma_func_len_same(p.f, q.f, p.f.order, p.f.order.len());
        lemma_rest_more(p.f, q.f, p.cur, p.f.blocks.len());
    }
}

pub(crate) proof fn lemma_with_term(p: Point, q: Point, t: Term)
    requires
        crate::ir::open_at(p),
        p.cur <= usize::MAX,
        q == (Point { f: crate::ir::with_term(p, t), cur: p.cur }),
        can_close(p, t),
    ensures
        tidy(p) ==> tidy(q) && total(q.f) == total(p.f),
        forall|c: int| #[trigger] calls_below(p.f, c) ==> calls_below(q.f, c),
{
    reveal(tidy);
    reveal(total);
    reveal(calls_below);
    assert forall|c: int| #[trigger] calls_below(p.f, c) implies calls_below(q.f, c) by {
        assert forall|b: int, k: int| 0 <= b < q.f.blocks.len() && 0 <= k < q.f.blocks[b].insts.len() implies call_below(
            #[trigger] q.f.blocks[b].insts[k],
            c,
        ) by {
            assert(q.f.blocks[b].insts[k] == p.f.blocks[b].insts[k]);
        }
    }
    if tidy(p) {
        let m = p.f.order.len() as int;
        let n = p.f.blocks[p.cur].insts.len() as int;
        assert(!ended(p.f.order, m, p.cur)) by {
            if ended(p.f.order, m, p.cur) {
                let j = choose|j: int| 0 <= j < m && #[trigger] p.f.order[j] == p.cur;
                assert(closed_ok(p.f, j));
            }
        }
        assert(crate::ir::extends(p.f, q.f));
        assert(q.f.order[m] == p.cur);
        assert forall|j: int| 0 <= j < m implies #[trigger] q.f.order[j] == p.f.order[j] && q.f.order[j] != p.cur by {
            assert(p.f.order[j] != p.cur);
        }
        assert forall|j: int| 0 <= j < q.f.order.len() implies #[trigger] closed_ok(q.f, j) by {
            if j < m {
                assert(closed_ok(p.f, j));
                assert(q.f.order[j] == p.f.order[j]);
                lemma_closed(p.f, q.f, j);
            } else {
                assert forall|k: int| 0 <= k < q.f.blocks[p.cur].insts.len() implies inst_ok(
                    q.f,
                    m,
                    p.cur,
                    k,
                    #[trigger] q.f.blocks[p.cur].insts[k],
                ) by {
                    assert(inst_ok(p.f, m, p.cur, k, p.f.blocks[p.cur].insts[k]));
                    lemma_inst_ok(p.f, q.f, m, p.cur, k, p.f.blocks[p.cur].insts[k]);
                }
                assert forall|v: Value| end_uses(t, v) implies #[trigger] earlier(q.f, m, p.cur, n, v) by {
                    assert(crate::ir::built(p.f, v));
                    lemma_built_earlier(p, v);
                    lemma_earlier(p.f, q.f, m, p.cur, n, v);
                }
            }
        }
        assert forall|b: int| 0 <= b < q.f.blocks.len() implies #[trigger] pending_ok(q, b) by {
            assert(pending_ok(p, b));
            if !ended(q.f.order, m + 1, b) {
                if ended(p.f.order, m, b) {
                    let i = choose|i: int| 0 <= i < m && #[trigger] p.f.order[i] == b;
                    assert(q.f.order[i] == b);
                }
            }
        }
        assert(ended(q.f.order, m + 1, q.cur));
        assert forall|i: int| 0 <= i < m implies #[trigger] p.f.order[i] < p.f.blocks.len() by {
            assert(closed_ok(p.f, i));
        }
        lemma_func_len_same(p.f, q.f, p.f.order, p.f.order.len());
        lemma_func_len_prefix(q.f, p.f.order, q.f.order, p.f.order.len());
        lemma_rest_less(p.f, q.f, p.cur as usize, p.f.blocks.len());
    }
}

proof fn lemma_func_len_prefix(f: FuncV, a: Seq<usize>, b: Seq<usize>, j: nat)
    requires
        j <= a.len(),
        a.len() <= b.len(),
        forall|i: int| 0 <= i < j ==> #[trigger] a[i] == b[i],
    ensures
        crate::lower::func_len(f, a, j) == crate::lower::func_len(f, b, j),
    decreases j,
{
    if j > 0 {
        lemma_func_len_prefix(f, a, b, (j - 1) as nat);
        let _ = a[j - 1];
    }
}

/// Going on at an empty block keeps order, where the block before has been ended.
pub(crate) proof fn lemma_switch(p: Point, q: Point, n: usize)
    requires
        q.f == p.f,
        0 <= q.cur < p.f.blocks.len(),
        p.f.blocks[q.cur] == crate::ir::new_block(n),
        0 <= p.cur < p.f.blocks.len(),
        p.f.blocks[p.cur].term is Some,
    ensures
        tidy(p) ==> tidy(q),
{
    reveal(tidy);
    if tidy(p) {
        let m = p.f.order.len() as int;
        assert(pending_ok(p, p.cur));
        assert(ended(p.f.order, m, p.cur));
        assert forall|b: int| 0 <= b < q.f.blocks.len() implies #[trigger] pending_ok(q, b) by {
            assert(pending_ok(p, b));
        }
    }
}

// ---------------------------------------------------------------------------
// What is in order can be handed over.
// ---------------------------------------------------------------------------

/// What the numbering of blocks that were ended knows.
proof fn lemma_after(f: FuncV, j: nat)
    requires
        j <= f.order.len(),
        forall|i: int| 0 <= i < f.order.len() ==> #[trigger] f.order[i] < f.blocks.len(),
        forall|i: int, k: int| 0 <= i < k < f.order.len() ==> #[trigger] f.order[i] != #[trigger] f.order[k],
    ensures
        ({
            let n = crate::lower::after_blocks(f, f.order, j);
            &&& n.params == crate::lower::at_start(f).params
            &&& n.blocks.len() == f.blocks.len()
            &&& n.insts.len() == f.blocks.len()
            &&& forall|i: int|
                0 <= i < j ==> done_at(n, f, #[trigger] f.order[i] as int)
        }),
    decreases j,
{
    if j > 0 {
        lemma_after(f, (j - 1) as nat);
        let n = crate::lower::after_blocks(f, f.order, (j - 1) as nat);
        let g = crate::lower::after_blocks(f, f.order, j);
        let b = f.order[j - 1] as int;
        assert forall|i: int| 0 <= i < j implies done_at(g, f, #[trigger] f.order[i] as int) by {
            if i < j - 1 {
                assert(done_at(n, f, f.order[i] as int));
                assert(f.order[i] != f.order[j - 1]);
                assert(g.insts[f.order[i] as int] == n.insts[f.order[i] as int]);
            }
        }
    }
}

/// Whether a numbering knows the values of a block.
spec fn done_at(n: crate::lower::Numbers, f: FuncV, b: int) -> bool {
    &&& n.insts[b].len() == f.blocks[b].insts.len()
    &&& forall|k: int|
        0 <= k < f.blocks[b].insts.len() && crate::lower::gives_value(f.blocks[b].insts[k])
            ==> #[trigger] n.insts[b][k] is Some
}

proof fn lemma_known(f: FuncV, j: nat, k: int, v: Value)
    requires
        j < f.order.len(),
        forall|i: int| 0 <= i < f.order.len() ==> #[trigger] f.order[i] < f.blocks.len(),
        forall|i: int, k: int| 0 <= i < k < f.order.len() ==> #[trigger] f.order[i] != #[trigger] f.order[k],
        0 <= k <= f.blocks[f.order[j as int] as int].insts.len(),
        earlier(f, j as int, f.order[j as int] as int, k, v),
    ensures
        crate::lower::known(
            crate::lower::after_part(
                crate::lower::after_blocks(f, f.order, j),
                f,
                f.order[j as int] as int,
                k as nat,
            ),
            v,
        ),
{
    lemma_after(f, j);
    let n = crate::lower::after_blocks(f, f.order, j);
    let b = f.order[j as int] as int;
    match v {
        Value::Param(c, i) => {},
        Value::Inst(c, i) => {
            if c != b {
                let h = choose|h: int| 0 <= h < j && #[trigger] f.order[h] == c;
                assert(done_at(n, f, f.order[h] as int));
                assert(n.insts[c as int][i as int] is Some);
            }
        },
    }
}

/// Every block has been ended, where as many have been as there are.
proof fn lemma_all_ended(order: Seq<usize>, n: nat, b: int)
    requires
        order.len() == n,
        forall|i: int| 0 <= i < n ==> #[trigger] order[i] < n,
        forall|i: int, j: int| 0 <= i < j < n ==> #[trigger] order[i] != #[trigger] order[j],
        0 <= b < n,
    ensures
        crate::lower::comes_up(order, b),
{
    if !crate::lower::comes_up(order, b) {
        let s = order.to_set();
        let all = vstd::set_lib::set_int_range(0, n as int);
        vstd::set_lib::lemma_int_range(0, n as int);
        order.unique_seq_to_set();
        let m = order.map_values(|x: usize| x as int);
        assert(m.no_duplicates()) by {
            assert forall|i: int, j: int| 0 <= i < m.len() && 0 <= j < m.len() && i != j implies m[i] != m[j] by {
                if i < j {
                    assert(order[i] != order[j]);
                } else {
                    assert(order[j] != order[i]);
                }
            }
        }
        m.unique_seq_to_set();
        assert(m.to_set().subset_of(all.remove(b))) by {
            assert forall|x: int| m.to_set().contains(x) implies all.remove(b).contains(x) by {
                let i = choose|i: int| 0 <= i < m.len() && m[i] == x;
                assert(order[i] < n);
                assert(order[i] != b);
            }
        }
        vstd::set_lib::lemma_len_subset(m.to_set(), all.remove(b));
    }
}

/// A function that is in order, all its blocks ended, can be handed over.
pub(crate) proof fn lemma_fits(p: Point, funcs: nat)
    requires
        tidy(p),
        left(p) == 0,
        total(p.f) <= crate::lower::MAX_STEPS,
        calls_below(p.f, funcs as int),
    ensures
        crate::lower::fit(p.f, funcs),
        crate::lower::stores_fit(p.f),
{
    reveal(tidy);
    reveal(total);
    reveal(calls_below);
    let f = p.f;
    let l = crate::lower::Links {
        keys: Seq::new(f.keys.len(), |k: int| 0u64),
        shims: Seq::empty(),
        funcs: Seq::new(funcs, |k: int| 0u32),
    };
    assert forall|i: int| 0 <= i < f.order.len() implies #[trigger] f.order[i] < f.blocks.len() by {
        assert(closed_ok(f, i));
    }
    assert forall|b: int| 0 <= b < f.blocks.len() implies #[trigger] crate::lower::comes_up(f.order, b) by {
        lemma_all_ended(f.order, f.blocks.len(), b);
    }
    assert(crate::lower::order_fits(f, f.order));
    assert forall|j: int| 0 <= j < f.order.len() implies crate::lower::block_fits(
        crate::lower::after_blocks(f, f.order, j as nat),
        l,
        f,
        #[trigger] f.order[j] as int,
    ) by {
        assert(closed_ok(f, j));
        let b = f.order[j] as int;
        let n = crate::lower::after_blocks(f, f.order, j as nat);
        lemma_after(f, j as nat);
        let size = f.blocks[b].insts.len() as int;
        assert forall|k: int| 0 <= k < size implies crate::lower::can_step(
            crate::lower::after_part(n, f, b, k as nat),
            l,
            #[trigger] f.blocks[b].insts[k],
        ) by {
            let i = f.blocks[b].insts[k];
            assert(inst_ok(f, j, b, k, i));
            assert forall|v: Value| uses(i, v) implies #[trigger] crate::lower::known(
                crate::lower::after_part(n, f, b, k as nat),
                v,
            ) by {
                assert(earlier(f, j, b, k, v));
                lemma_known(f, j as nat, k, v);
            }
            assert(call_below(i, funcs as int));
            lemma_can_step(crate::lower::after_part(n, f, b, k as nat), l, i);
        }
        let t = f.blocks[b].term->0;
        assert forall|v: Value| end_uses(t, v) implies #[trigger] crate::lower::known(
            crate::lower::after_part(n, f, b, size as nat),
            v,
        ) by {
            assert(earlier(f, j, b, size, v));
            lemma_known(f, j as nat, size, v);
        }
        lemma_can_end(crate::lower::after_part(n, f, b, size as nat), t);
    }
    assert forall|b: int, k: int| 0 <= b < f.blocks.len() && 0 <= k < f.blocks[b].insts.len() implies crate::lower::stores_all(
        f,
        #[trigger] f.blocks[b].insts[k],
    ) by {
        assert(crate::lower::comes_up(f.order, b));
        let j = choose|j: int| 0 <= j < f.order.len() && #[trigger] f.order[j] == b;
        assert(closed_ok(f, j));
        assert(inst_ok(f, j, b, k, f.blocks[b].insts[k]));
    }
}

proof fn lemma_can_step(n: crate::lower::Numbers, l: crate::lower::Links, i: Inst)
    requires
        forall|v: Value| uses(i, v) ==> #[trigger] crate::lower::known(n, v),
        constants_fit(i, l.keys.len()),
        call_below(i, l.funcs.len() as int),
    ensures
        crate::lower::can_step(n, l, i),
{
    reveal(crate::lower::can_step);
}

proof fn lemma_can_end(n: crate::lower::Numbers, t: Term)
    requires
        forall|v: Value| end_uses(t, v) ==> #[trigger] crate::lower::known(n, v),
        leads(t, n.blocks.len()),
    ensures
        crate::lower::can_end(n, t),
{
    reveal(crate::lower::can_end);
}

} // verus!
