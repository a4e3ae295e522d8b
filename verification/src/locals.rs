//! Which local of a subprogram a pointer means, over the tree of entries: the locals
//! are the variables and parameters under the subprogram, those of its lexical blocks
//! and inlined subroutines included.
use crate::die::{ascending, index_of, Attr, Entry, Fault, Unit};
use crate::locate::{
    chosen, local_at, local_of, walk, walk_kids, LocalV, Opcodes, Regs, Walk, MAX_DEPTH,
};
use crate::tree::{encloses, is_child, spot};
use vstd::prelude::*;

verus! {

/// Whether an entry is a variable or a formal parameter.
pub open spec fn is_local(e: Entry) -> bool {
    e.tag == 0x34 || e.tag == 0x05
}

/// Whether an entry is a lexical block or an inlined subroutine.
pub open spec fn is_block(e: Entry) -> bool {
    e.tag == 0x0b || e.tag == 0x1d
}

/// Whether an entry stands under another, with lexical blocks and inlined subroutines
/// between them, at most so many.
pub open spec fn within(es: Seq<Entry>, p: int, v: int, d: nat) -> bool
    decreases d,
{
    is_child(es, p, v) || (d > 0 && exists|b: int| #[trigger]
        is_child(es, p, b) && is_block(es[b]) && within(es, b, v, (d - 1) as nat))
}

/// Whether an entry is one of the locals under another.
pub open spec fn is_local_under(es: Seq<Entry>, p: int, v: int, d: nat) -> bool {
    within(es, p, v, d) && is_local(es[v])
}

/// What a local is, seen from an address with some registers.
pub open spec fn seen(unit: Unit, v: int, regs: Regs, pc: u64) -> Result<LocalV, Fault> {
    local_of(unit, unit.dies()[v].offset, regs, pc)
}

/// Whether a local of a known type lies at a pointer.
pub open spec fn is_there(l: LocalV, ptr: u64) -> bool {
    l.ty is Some && l.addr == Some(ptr)
}

/// Whether a local is a `MaybeUninit<..>`.
pub open spec fn is_maybe_uninit(l: LocalV) -> bool {
    l.ty is Some && crate::text::begins(l.ty_name, "MaybeUninit<"@)
}

/// Whether a local is a `MaybeUninit<..>` that lies at a pointer.
pub open spec fn is_target(l: LocalV, ptr: u64) -> bool {
    is_there(l, ptr) && is_maybe_uninit(l)
}

/// Whether a local can be read, and is none that is looked for.
pub open spec fn passed(unit: Unit, v: int, regs: Regs, pc: u64, ptr: u64) -> bool {
    seen(unit, v, regs, pc) matches Ok(l) && !is_target(l, ptr)
}

proof fn lemma_within(es: Seq<Entry>, p: int, v: int, d: nat)
    requires
        within(es, p, v, d),
    ensures
        encloses(es, p, v),
    decreases d,
{
    if !is_child(es, p, v) {
        let b = choose|b: int| #[trigger]
            is_child(es, p, b) && is_block(es[b]) && within(es, b, v, (d - 1) as nat);
        lemma_within(es, b, v, (d - 1) as nat);
        assert forall|j: int| p < j <= v implies (#[trigger] es[j]).depth > es[p].depth by {
            if j > b {
                assert(es[j].depth > es[b].depth);
            }
        }
    }
}

/// What stands under one child comes before the next child.
proof fn lemma_before_next(es: Seq<Entry>, p: int, b: int, c: int, v: int, d: nat)
    requires
        is_child(es, p, b),
        is_child(es, p, c),
        b < c,
        within(es, b, v, d),
    ensures
        b < v < c,
{
    lemma_within(es, b, v, d);
    if c <= v {
        assert(es[c].depth > es[b].depth);
    }
}

/// Whether an entry is a child, or stands under one that is a block.
#[verifier::opaque]
spec fn through(es: Seq<Entry>, c: int, v: int, d: nat) -> bool {
    v == c || (d > 0 && is_block(es[c]) && within(es, c, v, (d - 1) as nat))
}

/// Whether an entry is a local that is reached through one of some children.
#[verifier::opaque]
spec fn reached(es: Seq<Entry>, kids: Seq<usize>, k: int, v: int, d: nat) -> bool {
    is_local(es[v]) && exists|j: int| k <= j < kids.len() && through(es, spot(es, #[trigger] kids[j]), v, d)
}

/// Whether children are those of an entry, in order.
#[verifier::opaque]
spec fn are_kids(es: Seq<Entry>, p: int, kids: Seq<usize>) -> bool {
    &&& forall|k: int|
        0 <= k < kids.len() ==> index_of(es, #[trigger] kids[k]) is Some && is_child(es, p, spot(es, kids[k]))
    &&& forall|j: int, k: int| 0 <= j < k < kids.len() ==> spot(es, #[trigger] kids[j]) < spot(es, #[trigger] kids[k])
    &&& forall|c: int| #[trigger] is_child(es, p, c) ==> kids.contains(es[c].offset)
}

/// Whether positions are in order.
pub open spec fn in_order(vs: Seq<int>) -> bool {
    forall|i: int, j: int| 0 <= i < j < vs.len() ==> #[trigger] vs[i] < #[trigger] vs[j]
}

/// Whether locals were all passed over, up to one of them.
pub open spec fn passed_to(unit: Unit, vs: Seq<int>, n: int, regs: Regs, pc: u64, ptr: u64) -> bool {
    forall|i: int| 0 <= i < n ==> passed(unit, #[trigger] vs[i], regs, pc, ptr)
}

/// What a walk over locals in order comes to: it ends at the first that is looked for
/// or cannot be read; where there is none, it passes over them all.
pub open spec fn goes(unit: Unit, vs: Seq<int>, w: Walk, regs: Regs, pc: u64, ptr: u64) -> bool {
    match w {
        Walk::All(ls) => {
            &&& ls.len() == vs.len()
            &&& passed_to(unit, vs, vs.len() as int, regs, pc, ptr)
            &&& forall|i: int|
                0 <= i < vs.len() ==> seen(unit, #[trigger] vs[i], regs, pc) == Ok::<LocalV, Fault>(ls[i])
        },
        Walk::Hit(l) => {
            &&& vs.len() > 0
            &&& passed_to(unit, vs, vs.len() - 1, regs, pc, ptr)
            &&& seen(unit, vs.last(), regs, pc) == Ok::<LocalV, Fault>(l)
            &&& is_target(l, ptr)
        },
        Walk::Broken(f) => !unit.whole() || {
            &&& vs.len() > 0
            &&& passed_to(unit, vs, vs.len() - 1, regs, pc, ptr)
            &&& seen(unit, vs.last(), regs, pc) == Err::<LocalV, Fault>(f)
        },
    }
}

/// Whether a position is among those that a walk came to, or after the last of them.
pub open spec fn met(vs: Seq<int>, w: Walk, v: int) -> bool {
    vs.contains(v) || (!(w is All) && vs.len() > 0 && vs.last() < v)
}

/// A walk over the locals under an entry comes, in the order of the tree, to all of
/// them up to the one where it ends.
#[verifier::spinoff_prover]
#[verifier::rlimit(60)]
proof fn lemma_walk(unit: Unit, off: usize, depth: nat, regs: Regs, pc: u64, ptr: u64) -> (vs: Seq<int>)
    requires
        ascending(unit.dies()),
        index_of(unit.dies(), off) is Some,
        depth <= MAX_DEPTH,
    ensures
        ({
            let es = unit.dies();
            let w = walk(unit, off, depth, regs, pc, ptr);
            let d = (MAX_DEPTH - depth) as nat;
            &&& in_order(vs)
            &&& goes(unit, vs, w, regs, pc, ptr)
            &&& forall|i: int| 0 <= i < vs.len() ==> is_local_under(es, spot(es, off), #[trigger] vs[i], d)
            &&& forall|v: int| #[trigger] is_local_under(es, spot(es, off), v, d) ==> met(vs, w, v) || !unit.whole()
        }),
    decreases MAX_DEPTH + 1 - depth, 1nat, 0nat,
{
    reveal(through);
    reveal(reached);
    reveal(are_kids);
    let es = unit.dies();
    let p = spot(es, off);
    let d = (MAX_DEPTH - depth) as nat;
    let w = walk(unit, off, depth, regs, pc, ptr);
    crate::tree::law_children_are_what_stands_under(unit, off);
    match crate::die::children(unit, off) {
        Err(e) => Seq::empty(),
        Ok(kids) => {
            let vs = lemma_walk_kids(unit, p, kids, 0, depth, regs, pc, ptr);
            assert forall|i: int| 0 <= i < vs.len() implies is_local_under(es, p, #[trigger] vs[i], d) by {
                assert(reached(es, kids, 0, vs[i], d));
                let j = choose|j: int| 0 <= j < kids.len() && through(es, spot(es, #[trigger] kids[j]), vs[i], d);
                assert(is_child(es, p, spot(es, kids[j])));
            }
            assert forall|v: int| #[trigger] is_local_under(es, p, v, d) implies met(vs, w, v) || !unit.whole() by {
                let c = if is_child(es, p, v) {
                    v
                } else {
                    choose|b: int| #[trigger]
                        is_child(es, p, b) && is_block(es[b]) && within(es, b, v, (d - 1) as nat)
                };
                assert(is_child(es, p, c));
                assert(kids.contains(es[c].offset));
                let j = choose|j: int| 0 <= j < kids.len() && kids[j] == es[c].offset;
                crate::die::lemma_index_of(es, es[c].offset, c);
                assert(through(es, spot(es, kids[j]), v, d));
                assert(reached(es, kids, 0, v, d));
            }
            vs
        },
    }
}

proof fn lemma_reached_later(es: Seq<Entry>, p: int, kids: Seq<usize>, k: int, v: int, d: nat)
    requires
        are_kids(es, p, kids),
        0 <= k < kids.len(),
        reached(es, kids, k + 1, v, d),
    ensures
        spot(es, kids[k]) < v,
        forall|u: int| #[trigger] through(es, spot(es, kids[k]), u, d) ==> u < v,
{
    reveal(through);
    reveal(reached);
    reveal(are_kids);
    let j = choose|j: int| k + 1 <= j < kids.len() && through(es, spot(es, #[trigger] kids[j]), v, d);
    let c = spot(es, kids[j]);
    let b = spot(es, kids[k]);
    assert(b < c);
    if v != c {
        lemma_within(es, c, v, (d - 1) as nat);
    }
    assert forall|u: int| #[trigger] through(es, b, u, d) implies u < v by {
        if u != b {
            lemma_before_next(es, p, b, c, u, (d - 1) as nat);
        }
    }
}

#[verifier::spinoff_prover]
#[verifier::rlimit(60)]
proof fn lemma_walk_kids(
    unit: Unit,
    p: int,
    kids: Seq<usize>,
    k: nat,
    depth: nat,
    regs: Regs,
    pc: u64,
    ptr: u64,
) -> (vs: Seq<int>)
    requires
        ascending(unit.dies()),
        are_kids(unit.dies(), p, kids),
        k <= kids.len(),
        depth <= MAX_DEPTH,
    ensures
        ({
            let es = unit.dies();
            let w = walk_kids(unit, kids, k, depth, regs, pc, ptr);
            let d = (MAX_DEPTH - depth) as nat;
            &&& in_order(vs)
            &&& goes(unit, vs, w, regs, pc, ptr)
            &&& forall|i: int| 0 <= i < vs.len() ==> reached(es, kids, k as int, #[trigger] vs[i], d)
            &&& forall|v: int| #[trigger] reached(es, kids, k as int, v, d) ==> met(vs, w, v) || !unit.whole()
        }),
    decreases MAX_DEPTH + 1 - depth, 0nat, kids.len() - k,
{
    reveal(through);
    reveal(are_kids);
    let es = unit.dies();
    let d = (MAX_DEPTH - depth) as nat;
    let w = walk_kids(unit, kids, k, depth, regs, pc, ptr);
    if k >= kids.len() {
        reveal(reached);
        Seq::empty()
    } else {
        let off = kids[k as int];
        let c = spot(es, off);
        assert(is_child(es, p, c));
        assert(es[c].offset == off);
        let rest = lemma_walk_kids(unit, p, kids, k + 1, depth, regs, pc, ptr);
        let then = walk_kids(unit, kids, k + 1, depth, regs, pc, ptr);
        let first: Seq<int> = if is_block(es[c]) {
            if depth < MAX_DEPTH {
                let inner = lemma_walk(unit, off, depth + 1, regs, pc, ptr);
                assert forall|i: int| 0 <= i < inner.len() implies through(es, c, #[trigger] inner[i], d)
                    && is_local(es[inner[i]]) by {
                    assert(is_local_under(es, c, inner[i], (d - 1) as nat));
                }
                inner
            } else {
                Seq::empty()
            }
        } else if is_local(es[c]) {
            seq![c]
        } else {
            Seq::empty()
        };
        let here = if is_block(es[c]) {
            walk(unit, off, depth + 1, regs, pc, ptr)
        } else if is_local(es[c]) {
            match local_of(unit, off, regs, pc) {
                Err(e) => Walk::Broken(e),
                Ok(l) => if is_target(l, ptr) {
                    Walk::Hit(l)
                } else {
                    Walk::All(seq![l])
                },
            }
        } else {
            Walk::All(Seq::empty())
        };
        assert(in_order(first));
        assert(goes(unit, first, here, regs, pc, ptr));
        assert forall|i: int| 0 <= i < first.len() implies through(es, c, #[trigger] first[i], d) && is_local(
            es[first[i]],
        ) by {}
        assert forall|v: int| is_local(es[v]) && #[trigger] through(es, c, v, d) implies met(first, here, v)
            || !unit.whole() by {
            if is_block(es[c]) && v != c {
                assert(is_local_under(es, c, v, (d - 1) as nat));
            } else if is_local(es[c]) {
                assert(first[0] == v);
            }
        }
        assert(covers_one(es, c, d, first, here, unit.whole()));
        assert(covers(es, kids, k as int + 1, d, rest, then, unit.whole()));
        match here {
            Walk::All(ls) => {
                lemma_join_goes(unit, first, ls, rest, then, regs, pc, ptr);
                lemma_join_covers(es, p, kids, k as int, k as int + 1, d, first, ls, rest, then, unit.whole());
                assert(w == crate::locate::after(ls, then)) by {
                    if ls.len() == 0 && then is All {
                        assert(ls + then->All_0 =~= then->All_0);
                    }
                }
                first + rest
            },
            _ => {
                lemma_stop_covers(es, p, kids, k as int, k as int + 1, d, first, here, unit.whole());
                first
            },
        }
    }
}

/// A walk that passed over some locals goes on with others.
proof fn lemma_join_goes(
    unit: Unit,
    first: Seq<int>,
    ls: Seq<LocalV>,
    rest: Seq<int>,
    then: Walk,
    regs: Regs,
    pc: u64,
    ptr: u64,
)
    requires
        goes(unit, first, Walk::All(ls), regs, pc, ptr),
        goes(unit, rest, then, regs, pc, ptr),
    ensures
        goes(unit, first + rest, crate::locate::after(ls, then), regs, pc, ptr),
{
    let vs = first + rest;
    let n = match then {
        Walk::All(_) => rest.len() as int,
        _ => rest.len() - 1,
    };
    if passed_to(unit, rest, n, regs, pc, ptr) {
        assert forall|i: int| 0 <= i < first.len() + n implies passed(unit, #[trigger] vs[i], regs, pc, ptr) by {
            if i < first.len() {
                assert(vs[i] == first[i]);
            } else {
                assert(vs[i] == rest[i - first.len()]);
            }
        }
    }
    if rest.len() > 0 {
        assert(vs.last() == rest.last());
    }
    if let Walk::All(more) = then {
        let all = ls + more;
        assert forall|i: int| 0 <= i < vs.len() implies seen(unit, #[trigger] vs[i], regs, pc) == Ok::<LocalV, Fault>(
            all[i],
        ) by {
            if i < first.len() {
                assert(vs[i] == first[i]);
            } else {
                assert(vs[i] == rest[i - first.len()]);
            }
        }
    }
}

/// What is reached through one child or through later ones.
proof fn lemma_reached(es: Seq<Entry>, kids: Seq<usize>, k: int, next: int, v: int, d: nat)
    requires
        0 <= k < kids.len(),
        next == k + 1,
    ensures
        reached(es, kids, k, v, d) <==> (is_local(es[v]) && through(es, spot(es, kids[k]), v, d)) || reached(
            es,
            kids,
            next,
            v,
            d,
        ),
{
    reveal(reached);
    if reached(es, kids, k, v, d) {
        let j = choose|j: int| k <= j < kids.len() && through(es, spot(es, #[trigger] kids[j]), v, d);
        if j > k {
            assert(next <= j && through(es, spot(es, kids[j]), v, d));
        }
    }
    if reached(es, kids, next, v, d) {
        let j = choose|j: int| next <= j < kids.len() && through(es, spot(es, #[trigger] kids[j]), v, d);
        assert(k <= j && through(es, spot(es, kids[j]), v, d));
    }
}

/// Whether positions are those of some locals, in order, up to where a walk ended.
spec fn covers(
    es: Seq<Entry>,
    kids: Seq<usize>,
    k: int,
    d: nat,
    vs: Seq<int>,
    w: Walk,
    whole: bool,
) -> bool {
    &&& in_order(vs)
    &&& forall|i: int| 0 <= i < vs.len() ==> reached(es, kids, k, #[trigger] vs[i], d)
    &&& forall|v: int| #[trigger] reached(es, kids, k, v, d) ==> met(vs, w, v) || !whole
}

/// The same of one child alone.
spec fn covers_one(es: Seq<Entry>, c: int, d: nat, vs: Seq<int>, w: Walk, whole: bool) -> bool {
    &&& in_order(vs)
    &&& forall|i: int| 0 <= i < vs.len() ==> through(es, c, #[trigger] vs[i], d) && is_local(es[vs[i]])
    &&& forall|v: int| is_local(es[v]) && #[trigger] through(es, c, v, d) ==> met(vs, w, v) || !whole
}

proof fn lemma_join_covers(
    es: Seq<Entry>,
    p: int,
    kids: Seq<usize>,
    k: int,
    next: int,
    d: nat,
    first: Seq<int>,
    ls: Seq<LocalV>,
    rest: Seq<int>,
    then: Walk,
    whole: bool,
)
    requires
        are_kids(es, p, kids),
        0 <= k < kids.len(),
        next == k + 1,
        covers_one(es, spot(es, kids[k]), d, first, Walk::All(ls), whole),
        covers(es, kids, next, d, rest, then, whole),
    ensures
        covers(es, kids, k, d, first + rest, crate::locate::after(ls, then), whole),
{
    let c = spot(es, kids[k]);
    let vs = first + rest;
    let w = crate::locate::after(ls, then);
    assert forall|i: int, j: int| 0 <= i < j < vs.len() implies #[trigger] vs[i] < #[trigger] vs[j] by {
        if j < first.len() {
            assert(first[i] < first[j]);
        } else if i >= first.len() {
            assert(rest[i - first.len()] < rest[j - first.len()]);
        } else {
            lemma_reached_later(es, p, kids, k, rest[j - first.len()], d);
            assert(through(es, c, first[i], d));
        }
    }
    assert forall|i: int| 0 <= i < vs.len() implies reached(es, kids, k, #[trigger] vs[i], d) by {
        lemma_reached(es, kids, k, next, vs[i], d);
        if i < first.len() {
            assert(vs[i] == first[i]);
        } else {
            assert(vs[i] == rest[i - first.len()]);
        }
    }
    assert forall|v: int| #[trigger] reached(es, kids, k, v, d) implies met(vs, w, v) || !whole by {
        lemma_reached(es, kids, k, next, v, d);
        if first.contains(v) {
            let i = choose|i: int| 0 <= i < first.len() && first[i] == v;
            assert(vs[i] == v);
        } else if rest.contains(v) {
            let i = choose|i: int| 0 <= i < rest.len() && rest[i] == v;
            assert(vs[first.len() + i] == v);
        } else if rest.len() > 0 {
            assert(vs.last() == rest.last());
        }
    }
}

proof fn lemma_stop_covers(
    es: Seq<Entry>,
    p: int,
    kids: Seq<usize>,
    k: int,
    next: int,
    d: nat,
    first: Seq<int>,
    here: Walk,
    whole: bool,
)
    requires
        are_kids(es, p, kids),
        0 <= k < kids.len(),
        next == k + 1,
        covers_one(es, spot(es, kids[k]), d, first, here, whole),
        !(here is All),
        whole ==> first.len() > 0,
    ensures
        covers(es, kids, k, d, first, here, whole),
{
    let c = spot(es, kids[k]);
    assert forall|i: int| 0 <= i < first.len() implies reached(es, kids, k, #[trigger] first[i], d) by {
        lemma_reached(es, kids, k, next, first[i], d);
    }
    assert forall|v: int| #[trigger] reached(es, kids, k, v, d) implies met(first, here, v) || !whole by {
        lemma_reached(es, kids, k, next, v, d);
        if whole && reached(es, kids, next, v, d) {
            lemma_reached_later(es, p, kids, k, v, d);
            assert(through(es, c, first[first.len() - 1], d));
        }
    }
}

/// Whether the frame of the subprogram at an offset begins at an address.
pub open spec fn frame_at(unit: Unit, sp: usize, fp: u64, cfa: u64, ops: Opcodes, base: u64) -> bool {
    &&& index_of(unit.dies(), sp) is Some
    &&& crate::die::attr_of(unit.dies()[spot(unit.dies(), sp)], 0x40) matches Some(Attr::Exprloc(expr))
        && crate::locate::frame_base_of(expr@, fp, cfa, ops) == Ok::<Option<u64>, Fault>(Some(base))
}

/// Whether an entry is one of the locals of the subprogram at an offset.
pub open spec fn is_local_of(unit: Unit, sp: usize, v: int) -> bool {
    is_local_under(unit.dies(), spot(unit.dies(), sp), v, 32)
}

/// Whether what was found is a local.
pub open spec fn is_found(r: Result<Option<(Seq<char>, usize)>, Fault>, l: LocalV) -> bool {
    r matches Ok(Some((name, ty))) && name == l.name && l.ty == Some(ty)
}

/// Whether a local is the first that lies at a pointer.
pub open spec fn is_first_there(unit: Unit, sp: usize, regs: Regs, pc: u64, ptr: u64, v: int) -> bool {
    &&& is_local_of(unit, sp, v)
    &&& seen(unit, v, regs, pc) matches Ok(l) && is_there(l, ptr)
    &&& forall|u: int| u < v && #[trigger] is_local_of(unit, sp, u) ==> (seen(unit, u, regs, pc) matches Ok(l)
        ==> !is_there(l, ptr))
}

proof fn lemma_subprogram(unit: Unit, sp: usize, fp: u64, cfa: u64, pc: u64, ptr: u64, ops: Opcodes, base: u64) -> (vs:
    Seq<int>)
    requires
        ascending(unit.dies()),
        frame_at(unit, sp, fp, cfa, ops, base),
    ensures
        ({
            let regs = Regs { fp, sp: cfa, frame_base: base, ops };
            let w = walk(unit, sp, 0, regs, pc, ptr);
            &&& local_at(unit, sp, fp, cfa, pc, ptr, ops) == match chosen(w, ptr) {
                Err(f) => Err::<Option<(Seq<char>, usize)>, Fault>(f),
                Ok(None) => Ok(None),
                Ok(Some(l)) => Ok(Some((l.name, l.ty->0))),
            }
            &&& chosen(w, ptr) matches Ok(Some(l)) ==> l.ty is Some
            &&& in_order(vs)
            &&& goes(unit, vs, w, regs, pc, ptr)
            &&& forall|i: int| 0 <= i < vs.len() ==> is_local_of(unit, sp, #[trigger] vs[i])
            &&& forall|v: int| #[trigger] is_local_of(unit, sp, v) ==> met(vs, w, v) || !unit.whole()
        }),
{
    let regs = Regs { fp, sp: cfa, frame_base: base, ops };
    crate::locate::law_chosen_local(unit, sp, regs, pc, ptr);
    let vs = lemma_walk(unit, sp, 0, regs, pc, ptr);
    assert forall|i: int| 0 <= i < vs.len() implies is_local_of(unit, sp, #[trigger] vs[i]) by {
        assert(is_local_under(unit.dies(), spot(unit.dies(), sp), vs[i], 32));
    }
    vs
}

/// A pointer means a `MaybeUninit<..>` that lies there: wherever one of the locals of
/// the subprogram is such, be it in lexical blocks or inlined subroutines, and those
/// before it can be read, the first such is found.
pub proof fn law_target_is_found(
    unit: Unit,
    sp: usize,
    fp: u64,
    cfa: u64,
    pc: u64,
    ptr: u64,
    ops: Opcodes,
    base: u64,
    v: int,
) -> (w: int)
    requires
        ascending(unit.dies()),
        unit.whole(),
        frame_at(unit, sp, fp, cfa, ops, base),
        is_local_of(unit, sp, v),
        seen(unit, v, (Regs { fp, sp: cfa, frame_base: base, ops }), pc) matches Ok(l) && is_target(l, ptr),
        forall|u: int|
            u < v && #[trigger] is_local_of(unit, sp, u) ==> seen(
                unit,
                u,
                (Regs { fp, sp: cfa, frame_base: base, ops }),
                pc,
            ) is Ok,
    ensures
        ({
            let regs = Regs { fp, sp: cfa, frame_base: base, ops };
            &&& w <= v && is_local_of(unit, sp, w)
            &&& seen(unit, w, regs, pc) matches Ok(l) && is_target(l, ptr) && is_found(
                local_at(unit, sp, fp, cfa, pc, ptr, ops),
                l,
            )
            &&& forall|u: int| u < w && #[trigger] is_local_of(unit, sp, u) ==> passed(unit, u, regs, pc, ptr)
        }),
{
    let regs = Regs { fp, sp: cfa, frame_base: base, ops };
    let walked = walk(unit, sp, 0, regs, pc, ptr);
    let vs = lemma_subprogram(unit, sp, fp, cfa, pc, ptr, ops, base);
    assert(met(vs, walked, v));
    if vs.contains(v) {
        let i = choose|i: int| 0 <= i < vs.len() && vs[i] == v;
        if walked is All || i < vs.len() - 1 {
            assert(passed(unit, vs[i], regs, pc, ptr));
        }
    }
    let w = vs.last();
    assert(w == vs[vs.len() - 1]);
    assert(w <= v);
    if walked is Broken {
        assert(is_local_of(unit, sp, w));
    }
    assert forall|u: int| u < w && #[trigger] is_local_of(unit, sp, u) implies passed(unit, u, regs, pc, ptr) by {
        assert(met(vs, walked, u));
        let i = choose|i: int| 0 <= i < vs.len() && vs[i] == u;
        assert(passed(unit, vs[i], regs, pc, ptr));
    }
    w
}

/// Whether all locals of a subprogram can be read, and none is a `MaybeUninit<..>` that
/// lies at a pointer.
pub open spec fn none_is_target(unit: Unit, sp: usize, regs: Regs, pc: u64, ptr: u64) -> bool {
    forall|u: int| #[trigger] is_local_of(unit, sp, u) ==> passed(unit, u, regs, pc, ptr)
}

proof fn lemma_all_passed(unit: Unit, sp: usize, fp: u64, cfa: u64, pc: u64, ptr: u64, ops: Opcodes, base: u64) -> (r: (
    Seq<int>,
    Seq<LocalV>,
))
    requires
        ascending(unit.dies()),
        unit.whole(),
        frame_at(unit, sp, fp, cfa, ops, base),
        none_is_target(unit, sp, (Regs { fp, sp: cfa, frame_base: base, ops }), pc, ptr),
    ensures
        ({
            let regs = Regs { fp, sp: cfa, frame_base: base, ops };
            let (vs, ls) = r;
            &&& walk(unit, sp, 0, regs, pc, ptr) == Walk::All(ls)
            &&& in_order(vs)
            &&& ls.len() == vs.len()
            &&& forall|i: int|
                0 <= i < vs.len() ==> is_local_of(unit, sp, #[trigger] vs[i]) && seen(unit, vs[i], regs, pc) == Ok::<
                    LocalV,
                    Fault,
                >(ls[i])
            &&& forall|v: int| #[trigger] is_local_of(unit, sp, v) ==> vs.contains(v)
        }),
{
    let regs = Regs { fp, sp: cfa, frame_base: base, ops };
    let walked = walk(unit, sp, 0, regs, pc, ptr);
    let vs = lemma_subprogram(unit, sp, fp, cfa, pc, ptr, ops, base);
    if !(walked is All) {
        assert(is_local_of(unit, sp, vs[vs.len() - 1]));
        assert(passed(unit, vs.last(), regs, pc, ptr));
    }
    assert forall|v: int| #[trigger] is_local_of(unit, sp, v) implies vs.contains(v) by {
        assert(met(vs, walked, v));
    }
    (vs, walked->All_0)
}

proof fn lemma_first_there(ls: Seq<LocalV>, ptr: u64, k: nat, i: int)
    requires
        k <= i < ls.len(),
        is_there(ls[i], ptr),
        forall|j: int| k <= j < i ==> !is_there(#[trigger] ls[j], ptr),
    ensures
        crate::locate::first_at(ls, ptr, k) == Some(ls[i]),
    decreases i - k,
{
    if k < i {
        assert(!is_there(ls[k as int], ptr));
        lemma_first_there(ls, ptr, k + 1, i);
    }
}

proof fn lemma_none_there(ls: Seq<LocalV>, ptr: u64, k: nat)
    requires
        k <= ls.len(),
        forall|j: int| k <= j < ls.len() ==> !is_there(#[trigger] ls[j], ptr),
    ensures
        crate::locate::first_at(ls, ptr, k) is None,
    decreases ls.len() - k,
{
    if k < ls.len() {
        assert(!is_there(ls[k as int], ptr));
        lemma_none_there(ls, ptr, k + 1);
    }
}

proof fn lemma_first_uninit_is(ls: Seq<LocalV>, k: nat, i: int)
    requires
        k <= i < ls.len(),
        is_maybe_uninit(ls[i]),
        forall|j: int| k <= j < i ==> !is_maybe_uninit(#[trigger] ls[j]),
    ensures
        crate::locate::first_uninit(ls, k) == Some(ls[i]),
    decreases i - k,
{
    if k < i {
        assert(!is_maybe_uninit(ls[k as int]));
        lemma_first_uninit_is(ls, k + 1, i);
    }
}

proof fn lemma_no_uninit(ls: Seq<LocalV>, k: nat)
    requires
        k <= ls.len(),
        forall|j: int| k <= j < ls.len() ==> !is_maybe_uninit(#[trigger] ls[j]),
    ensures
        crate::locate::first_uninit(ls, k) is None,
    decreases ls.len() - k,
{
    if k < ls.len() {
        assert(!is_maybe_uninit(ls[k as int]));
        lemma_no_uninit(ls, k + 1);
    }
}

/// Where no `MaybeUninit<..>` lies at a pointer, it means the first local that does.
pub proof fn law_first_there_is_found(
    unit: Unit,
    sp: usize,
    fp: u64,
    cfa: u64,
    pc: u64,
    ptr: u64,
    ops: Opcodes,
    base: u64,
    v: int,
)
    requires
        ascending(unit.dies()),
        unit.whole(),
        frame_at(unit, sp, fp, cfa, ops, base),
        none_is_target(unit, sp, (Regs { fp, sp: cfa, frame_base: base, ops }), pc, ptr),
        is_first_there(unit, sp, (Regs { fp, sp: cfa, frame_base: base, ops }), pc, ptr, v),
    ensures
        seen(unit, v, (Regs { fp, sp: cfa, frame_base: base, ops }), pc) matches Ok(l) && is_found(
            local_at(unit, sp, fp, cfa, pc, ptr, ops),
            l,
        ),
{
    let regs = Regs { fp, sp: cfa, frame_base: base, ops };
    let (vs, ls) = lemma_all_passed(unit, sp, fp, cfa, pc, ptr, ops, base);
    let _ = lemma_subprogram(unit, sp, fp, cfa, pc, ptr, ops, base);
    assert(vs.contains(v));
    let i = choose|i: int| 0 <= i < vs.len() && vs[i] == v;
    assert forall|j: int| 0 <= j < i implies !is_there(#[trigger] ls[j], ptr) by {
        assert(vs[j] < vs[i]);
        assert(is_local_of(unit, sp, vs[j]));
    }
    lemma_first_there(ls, ptr, 0, i);
}

/// Where no local lies at a pointer, it means the first `MaybeUninit<..>` local, as long
/// as all of those are of one type.
pub proof fn law_sole_type_is_found(
    unit: Unit,
    sp: usize,
    fp: u64,
    cfa: u64,
    pc: u64,
    ptr: u64,
    ops: Opcodes,
    base: u64,
    v: int,
)
    requires
        ascending(unit.dies()),
        unit.whole(),
        frame_at(unit, sp, fp, cfa, ops, base),
        forall|u: int| #[trigger]
            is_local_of(unit, sp, u) ==> (seen(unit, u, (Regs { fp, sp: cfa, frame_base: base, ops }), pc) matches Ok(l)
                && !is_there(l, ptr)),
        is_local_of(unit, sp, v),
        seen(unit, v, (Regs { fp, sp: cfa, frame_base: base, ops }), pc) matches Ok(l) && is_maybe_uninit(l),
        forall|u: int|
            u < v && #[trigger] is_local_of(unit, sp, u) ==> (seen(
                unit,
                u,
                (Regs { fp, sp: cfa, frame_base: base, ops }),
                pc,
            ) matches Ok(l) && !is_maybe_uninit(l)),
    ensures
        ({
            let regs = Regs { fp, sp: cfa, frame_base: base, ops };
            let l = seen(unit, v, regs, pc)->Ok_0;
            let r = local_at(unit, sp, fp, cfa, pc, ptr, ops);
            let one_type = forall|u: int| #[trigger]
                is_local_of(unit, sp, u) ==> (seen(unit, u, regs, pc) matches Ok(m) && (is_maybe_uninit(m) ==> m.ty_name
                    == l.ty_name));
            if one_type {
                is_found(r, l)
            } else {
                r == Ok::<Option<(Seq<char>, usize)>, Fault>(None)
            }
        }),
{
    let regs = Regs { fp, sp: cfa, frame_base: base, ops };
    assert(none_is_target(unit, sp, regs, pc, ptr));
    let (vs, ls) = lemma_all_passed(unit, sp, fp, cfa, pc, ptr, ops, base);
    let _ = lemma_subprogram(unit, sp, fp, cfa, pc, ptr, ops, base);
    let i = choose|i: int| 0 <= i < vs.len() && vs[i] == v;
    assert forall|j: int| 0 <= j < ls.len() implies !is_there(#[trigger] ls[j], ptr) by {
        assert(is_local_of(unit, sp, vs[j]));
    }
    lemma_none_there(ls, ptr, 0);
    assert forall|j: int| 0 <= j < i implies !is_maybe_uninit(#[trigger] ls[j]) by {
        assert(vs[j] < vs[i]);
        assert(is_local_of(unit, sp, vs[j]));
    }
    lemma_first_uninit_is(ls, 0, i);
    let l = ls[i];
    let one_type = forall|u: int| #[trigger]
        is_local_of(unit, sp, u) ==> (seen(unit, u, regs, pc) matches Ok(m) && (is_maybe_uninit(m) ==> m.ty_name
            == l.ty_name));
    if one_type {
        assert forall|k: int| 0 <= k < ls.len() && is_maybe_uninit(#[trigger] ls[k]) implies ls[k].ty_name == l.ty_name by {
            assert(is_local_of(unit, sp, vs[k]));
        }
    } else {
        let u = choose|u: int| #[trigger]
            is_local_of(unit, sp, u) && !(seen(unit, u, regs, pc) matches Ok(m) && (is_maybe_uninit(m) ==> m.ty_name
                == l.ty_name));
        assert(vs.contains(u));
        let k = choose|k: int| 0 <= k < vs.len() && vs[k] == u;
        assert(is_maybe_uninit(ls[k]));
    }
}

/// Where no local lies at a pointer and none is a `MaybeUninit<..>`, it means none.
pub proof fn law_nothing_is_made_up(
    unit: Unit,
    sp: usize,
    fp: u64,
    cfa: u64,
    pc: u64,
    ptr: u64,
    ops: Opcodes,
    base: u64,
)
    requires
        ascending(unit.dies()),
        unit.whole(),
        frame_at(unit, sp, fp, cfa, ops, base),
        forall|u: int| #[trigger]
            is_local_of(unit, sp, u) ==> (seen(unit, u, (Regs { fp, sp: cfa, frame_base: base, ops }), pc) matches Ok(l)
                && !is_there(l, ptr) && !is_maybe_uninit(l)),
    ensures
        local_at(unit, sp, fp, cfa, pc, ptr, ops) == Ok::<Option<(Seq<char>, usize)>, Fault>(None),
{
    let regs = Regs { fp, sp: cfa, frame_base: base, ops };
    assert(none_is_target(unit, sp, regs, pc, ptr));
    let (vs, ls) = lemma_all_passed(unit, sp, fp, cfa, pc, ptr, ops, base);
    let _ = lemma_subprogram(unit, sp, fp, cfa, pc, ptr, ops, base);
    assert forall|j: int| 0 <= j < ls.len() implies !is_there(#[trigger] ls[j], ptr) && !is_maybe_uninit(ls[j]) by {
        assert(is_local_of(unit, sp, vs[j]));
    }
    lemma_none_there(ls, ptr, 0);
    lemma_no_uninit(ls, 0);
}

/// What breaks a search off is a local that cannot be read, with none before it that
/// was looked for.
pub proof fn law_only_unreadable_locals_break_off(
    unit: Unit,
    sp: usize,
    fp: u64,
    cfa: u64,
    pc: u64,
    ptr: u64,
    ops: Opcodes,
    base: u64,
)
    requires
        ascending(unit.dies()),
        unit.whole(),
        frame_at(unit, sp, fp, cfa, ops, base),
    ensures
        ({
            let regs = Regs { fp, sp: cfa, frame_base: base, ops };
            local_at(unit, sp, fp, cfa, pc, ptr, ops) matches Err(f) ==> exists|v: int| #[trigger]
                is_local_of(unit, sp, v) && seen(unit, v, regs, pc) == Err::<LocalV, Fault>(f) && forall|u: int|
                u < v && #[trigger] is_local_of(unit, sp, u) ==> passed(unit, u, regs, pc, ptr)
        }),
{
    let regs = Regs { fp, sp: cfa, frame_base: base, ops };
    let walked = walk(unit, sp, 0, regs, pc, ptr);
    let vs = lemma_subprogram(unit, sp, fp, cfa, pc, ptr, ops, base);
    if walked is Broken {
        let v = vs[vs.len() - 1];
        assert(is_local_of(unit, sp, v));
        assert forall|u: int| u < v && #[trigger] is_local_of(unit, sp, u) implies passed(unit, u, regs, pc, ptr) by {
            assert(met(vs, walked, u));
            let i = choose|i: int| 0 <= i < vs.len() && vs[i] == u;
            assert(passed(unit, vs[i], regs, pc, ptr));
        }
    }
}

/// Where a subprogram does not say where its frame begins, or says it in a way that is
/// not known, a pointer means none of its locals; where what it says breaks off, that is
/// the answer.
pub proof fn law_without_a_frame_there_is_no_local(
    unit: Unit,
    i: int,
    fp: u64,
    cfa: u64,
    pc: u64,
    ptr: u64,
    ops: Opcodes,
)
    requires
        ascending(unit.dies()),
        0 <= i < unit.dies().len(),
    ensures
        ({
            let e = unit.dies()[i];
            let r = local_at(unit, e.offset, fp, cfa, pc, ptr, ops);
            match crate::die::attr_of(e, 0x40) {
                Some(Attr::Exprloc(expr)) => match crate::locate::frame_base_of(expr@, fp, cfa, ops) {
                    Ok(None) => r == Ok::<Option<(Seq<char>, usize)>, Fault>(None),
                    Err(f) => r == Err::<Option<(Seq<char>, usize)>, Fault>(f),
                    Ok(Some(_)) => true,
                },
                _ => r == Ok::<Option<(Seq<char>, usize)>, Fault>(None),
            }
        }),
{
    crate::die::lemma_index_of(unit.dies(), unit.dies()[i].offset, i);
}

} // verus!
