//! Where types are defined. A type appears in many units: the one that needs
//! its layout holds its members, the others often only a stub. The index lists
//! every complete definition by name, and a stub is exchanged for the
//! definition of its name.
use crate::die::{
    attr_value, child_offsets, die_name, entry, tag, udata, Attr, Entry, Fault, Name, Unit,
    AT_BYTE_SIZE, AT_DECLARATION, TAG_MEMBER, TAG_STRUCTURE_TYPE, TAG_UNION_TYPE, TAG_VARIANT_PART,
};
use crate::plan::Site;
use crate::text::str_eq;
use vstd::prelude::*;
use vstd::string::*;

verus! {

/// Whether an entry is a struct or a union.
pub open spec fn is_aggregate(e: Entry) -> bool {
    e.tag == TAG_STRUCTURE_TYPE || e.tag == TAG_UNION_TYPE
}

/// Whether an entry is marked as a declaration only.
pub open spec fn is_declaration(e: Entry) -> bool {
    crate::die::attr_of(e, AT_DECLARATION) == Some(Attr::Flag(true))
}

/// Whether an entry is a part of a layout.
pub open spec fn is_part(e: Entry) -> bool {
    e.tag == TAG_MEMBER || e.tag == TAG_VARIANT_PART
}

/// The position after an entry's subtree.
pub open spec fn end_of(es: Seq<Entry>, i: int) -> int {
    crate::die::subtree_end(es, i, i + 1)
}

/// Whether a part of the entry at `i` stands directly under it before `k`.
pub open spec fn has_part(es: Seq<Entry>, i: int, k: int) -> bool {
    exists|j: int| i < j < k && #[trigger] is_part(es[j]) && es[j].depth == es[i].depth + 1
}

/// Whether the entry at `i` is a complete definition: a struct or union with a
/// name and with parts, and no mere declaration.
pub open spec fn is_definition(es: Seq<Entry>, i: int) -> bool {
    &&& is_aggregate(es[i])
    &&& !is_declaration(es[i])
    &&& es[i].name is Text
    &&& has_part(es, i, end_of(es, i))
}

/// A complete definition.
#[derive(Debug)]
pub struct Def {
    pub name: String,
    pub site: Site,
}

/// What a [`Def`] says.
pub struct DefV {
    pub name: Seq<char>,
    pub site: Site,
}

impl View for Def {
    type V = DefV;

    open spec fn view(&self) -> DefV {
        DefV { name: self.name@, site: self.site }
    }
}

/// What a list of definitions says.
pub open spec fn defs_view(v: Seq<Def>) -> Seq<DefV> {
    Seq::new(v.len(), |k: int| v[k]@)
}

/// The definition at `i`, alone in a list; an empty list where there is none.
pub open spec fn def_at(ui: usize, es: Seq<Entry>, i: int) -> Seq<DefV> {
    if is_definition(es, i) {
        seq![DefV { name: es[i].name->Text_0@, site: Site { unit: ui, off: es[i].offset } }]
    } else {
        Seq::empty()
    }
}

/// The definitions before `m` whose subtrees end at `k`, the inner first.
pub open spec fn defs_ending(ui: usize, es: Seq<Entry>, k: int, m: nat) -> Seq<DefV>
    decreases m,
{
    if m == 0 {
        Seq::empty()
    } else {
        let i = m - 1;
        let rest = defs_ending(ui, es, k, i as nat);
        if is_aggregate(es[i]) && end_of(es, i) == k {
            def_at(ui, es, i) + rest
        } else {
            rest
        }
    }
}

/// The definitions whose subtrees end before `k`, in the order of their ends.
pub open spec fn defs_before(ui: usize, es: Seq<Entry>, k: nat) -> Seq<DefV>
    decreases k,
{
    if k == 0 {
        Seq::empty()
    } else {
        defs_before(ui, es, (k - 1) as nat) + defs_ending(ui, es, k - 1, (k - 1) as nat)
    }
}

/// A unit's definitions, in the order in which their subtrees end.
pub open spec fn defs_of_unit(ui: usize, es: Seq<Entry>) -> Seq<DefV> {
    defs_before(ui, es, es.len() + 1)
}

/// The definitions of the first `n` units.
pub open spec fn defs_of(units: Seq<Unit>, n: nat) -> Seq<DefV>
    decreases n,
{
    if n == 0 || n > units.len() {
        Seq::empty()
    } else {
        defs_of(units, (n - 1) as nat) + defs_of_unit((n - 1) as usize, units[n - 1].dies())
    }
}

/// All definitions.
pub open spec fn all_defs(units: Seq<Unit>) -> Seq<DefV> {
    defs_of(units, units.len())
}

/// An aggregate whose subtree the walk is in.
struct IdxFrame {
    at: usize,
    depth: isize,
    decl: bool,
    has_child: bool,
}

/// Whether the walk, about to come to `k`, is still in the subtree of `i`.
spec fn is_open(es: Seq<Entry>, i: int, k: int) -> bool {
    0 <= i < k && forall|j: int| i < j < k ==> #[trigger] es[j].depth > es[i].depth
}

spec fn frame_ok(es: Seq<Entry>, f: IdxFrame, k: int) -> bool {
    &&& f.at < k
    &&& is_open(es, f.at as int, k)
    &&& is_aggregate(es[f.at as int])
    &&& f.depth == es[f.at as int].depth
    &&& f.decl == is_declaration(es[f.at as int])
    &&& f.has_child == has_part(es, f.at as int, k)
}

/// The stack holds what is open when the walk is about to come to `k`.
spec fn stack_ok(es: Seq<Entry>, st: Seq<IdxFrame>, k: int) -> bool {
    &&& forall|a: int| 0 <= a < st.len() ==> frame_ok(es, #[trigger] st[a], k)
    &&& forall|a: int, b: int| 0 <= a < b < st.len() ==> #[trigger] st[a].at < #[trigger] st[b].at
    &&& forall|i: int|
        0 <= i < k && #[trigger] is_aggregate(es[i]) && is_open(es, i, k) ==> exists|a: int|
            0 <= a < st.len() && #[trigger] st[a].at == i
}

proof fn lemma_open_end(es: Seq<Entry>, i: int, m: int, k: int)
    requires
        0 <= i < m <= k <= es.len(),
        forall|j: int| m <= j < k ==> #[trigger] es[j].depth > es[i].depth,
    ensures
        crate::die::subtree_end(es, i, m) >= k,
        k == es.len() || es[k].depth <= es[i].depth ==> crate::die::subtree_end(es, i, m) == k,
        k < es.len() && es[k].depth > es[i].depth ==> crate::die::subtree_end(es, i, m) > k,
    decreases k - m,
{
    if m < k {
        lemma_open_end(es, i, m + 1, k);
    } else {
        reveal_with_fuel(crate::die::subtree_end, 2);
        if k < es.len() && es[k].depth > es[i].depth {
            lemma_end_grows(es, i, k + 1);
        }
    }
}

proof fn lemma_end_grows(es: Seq<Entry>, i: int, m: int)
    requires
        0 <= m,
    ensures
        crate::die::subtree_end(es, i, m) >= m,
    decreases es.len() - m,
{
    if m < es.len() && es[m].depth > es[i].depth {
        lemma_end_grows(es, i, m + 1);
    }
}

/// What ended before `k` does not end at it.
proof fn lemma_closed_end(es: Seq<Entry>, i: int, k: int)
    requires
        0 <= i < k <= es.len(),
        !is_open(es, i, k),
    ensures
        end_of(es, i) < k,
{
    let j = choose|j: int| i < j < k && !(#[trigger] es[j].depth > es[i].depth);
    lemma_end_at_most(es, i, i + 1, j);
}

proof fn lemma_end_at_most(es: Seq<Entry>, i: int, m: int, j: int)
    requires
        0 <= i < m <= j < es.len(),
        es[j].depth <= es[i].depth,
    ensures
        crate::die::subtree_end(es, i, m) <= j,
    decreases j - m,
{
    if m < j && es[m].depth > es[i].depth {
        lemma_end_at_most(es, i, m + 1, j);
    }
}

/// Aggregates that end elsewhere do not count.
proof fn lemma_defs_ending_skip(ui: usize, es: Seq<Entry>, k: int, lo: nat, m: nat)
    requires
        lo <= m,
        forall|i: int| lo <= i < m && #[trigger] is_aggregate(es[i]) ==> end_of(es, i) != k,
    ensures
        defs_ending(ui, es, k, m) == defs_ending(ui, es, k, lo),
    decreases m - lo,
{
    if lo < m {
        lemma_defs_ending_skip(ui, es, k, lo, (m - 1) as nat);
    }
}

/// Above the top of the stack nothing is open.
proof fn lemma_above_top(es: Seq<Entry>, st: Seq<IdxFrame>, k: int, m: int)
    requires
        0 <= k <= es.len(),
        0 <= m <= k,
        forall|a: int| 0 <= a < st.len() ==> #[trigger] st[a].at < m,
        forall|i: int|
            0 <= i < m && #[trigger] is_aggregate(es[i]) && is_open(es, i, k) ==> exists|a: int|
                0 <= a < st.len() && #[trigger] st[a].at == i,
    ensures
        ({
            let lo = if st.len() == 0 {
                0
            } else {
                st.last().at + 1
            };
            forall|i: int|
                lo <= i < m && #[trigger] is_aggregate(es[i]) && (forall|a: int, b: int|
                    0 <= a < b < st.len() ==> #[trigger] st[a].at < #[trigger] st[b].at) ==> end_of(
                    es,
                    i,
                ) < k
        }),
{
    let lo = if st.len() == 0 {
        0
    } else {
        st.last().at + 1
    };
    if forall|a: int, b: int|
        0 <= a < b < st.len() ==> #[trigger] st[a].at < #[trigger] st[b].at {
        assert forall|i: int| lo <= i < m && #[trigger] is_aggregate(es[i]) implies end_of(es, i)
            < k by {
            if is_open(es, i, k) {
                let a = choose|a: int| 0 <= a < st.len() && #[trigger] st[a].at == i;
                if a < st.len() - 1 {
                    assert(st[a].at < st[st.len() - 1].at);
                }
                assert(false);
            }
            lemma_closed_end(es, i, k);
        }
    }
}

/// Closes an aggregate: adds it to the index where it is a definition.
fn idx_close(f: IdxFrame, ui: usize, es: &Vec<Entry>, out: &mut Vec<Def>)
    requires
        f.at < es@.len(),
        is_aggregate(es@[f.at as int]),
        f.decl == is_declaration(es@[f.at as int]),
        f.has_child == has_part(es@, f.at as int, end_of(es@, f.at as int)),
    ensures
        defs_view(final(out)@) == defs_view(old(out)@) + def_at(ui, es@, f.at as int),
{
    if f.has_child && !f.decl {
        if let Name::Text(n) = &es[f.at].name {
            out.push(Def { name: n.clone(), site: Site { unit: ui, off: es[f.at].offset } });
            assert(defs_view(out@) =~= defs_view(old(out)@) + def_at(ui, es@, f.at as int));
            return;
        }
    }
    assert(defs_view(old(out)@) + Seq::<DefV>::empty() =~= defs_view(old(out)@));
}

fn declared(e: &Entry) -> (r: bool)
    ensures
        r == is_declaration(*e),
{
    match attr_value(e, AT_DECLARATION) {
        Some(Attr::Flag(b)) => *b,
        _ => false,
    }
}

/// Closes every aggregate whose subtree ends at `k`, where `depth` is the depth
/// of the entry there, if there is one.
#[verifier::loop_isolation(false)]
fn close_until(
    stack: &mut Vec<IdxFrame>,
    depth: Option<isize>,
    ui: usize,
    es: &Vec<Entry>,
    k: usize,
    out: &mut Vec<Def>,
)
    requires
        k <= es@.len(),
        stack_ok(es@, old(stack)@, k as int),
        match depth {
            Some(d) => k < es@.len() && es@[k as int].depth == d,
            None => k == es@.len(),
        },
    ensures
        defs_view(final(out)@) == defs_view(old(out)@) + defs_ending(ui, es@, k as int, k as nat),
        forall|a: int| 0 <= a < final(stack)@.len() ==> frame_ok(es@, #[trigger] final(stack)@[a], k as int),
        forall|a: int, b: int|
            0 <= a < b < final(stack)@.len() ==> #[trigger] final(stack)@[a].at
                < #[trigger] final(stack)@[b].at,
        depth is None ==> final(stack)@.len() == 0,
        depth matches Some(d) ==> forall|i: int|
            0 <= i < k && #[trigger] is_aggregate(es@[i]) && is_open(es@, i, k as int)
                && es@[i].depth < d ==> exists|a: int|
                0 <= a < final(stack)@.len() && #[trigger] final(stack)@[a].at == i,
        depth matches Some(d) ==> forall|a: int|
            0 <= a < final(stack)@.len() ==> #[trigger] final(stack)@[a].depth < d,
{
    let ghost start = defs_view(out@);
    let ghost mut m: nat = k as nat;
    let ghost whole = defs_ending(ui, es@, k as int, k as nat);
    assert(start + Seq::<DefV>::empty() =~= start);
    loop
        invariant
            m <= k,
            stack@.len() <= old(stack)@.len(),
            stack@ == old(stack)@.take(stack@.len() as int),
            forall|a: int| 0 <= a < stack@.len() ==> #[trigger] stack@[a].at < m,
            forall|i: int|
                0 <= i < m && #[trigger] is_aggregate(es@[i]) && is_open(es@, i, k as int)
                    ==> exists|a: int| 0 <= a < stack@.len() && #[trigger] stack@[a].at == i,
            forall|i: int|
                m <= i < k && #[trigger] is_aggregate(es@[i]) && is_open(es@, i, k as int) ==> (depth
                    matches Some(d) ==> es@[i].depth >= d),
            start + whole == defs_view(out@) + defs_ending(ui, es@, k as int, m),
        decreases stack@.len(),
    {
        let n: usize = stack.len();
        proof {
            lemma_above_top(es@, stack@, k as int, m as int);
        }
        if n == 0 {
            proof {
                lemma_defs_ending_skip(ui, es@, k as int, 0, m);
                assert(defs_view(out@) + Seq::<DefV>::empty() =~= defs_view(out@));
            }
            break;
        }
        let pop: bool = match depth {
            Some(d) => d <= stack[n - 1].depth,
            None => true,
        };
        let ghost top = stack@[n - 1];
        let ghost t = top.at as nat;
        proof {
            assert(top == old(stack)@[n - 1]);
            assert(frame_ok(es@, top, k as int));
            lemma_open_end(es@, t as int, t as int + 1, k as int);
            lemma_defs_ending_skip(ui, es@, k as int, t + 1, m);
        }
        if !pop {
            proof {
                // Everything below the top is less deep, so it is open beyond `k` too.
                assert forall|i: int| 0 <= i <= t && #[trigger] is_aggregate(es@[i]) implies end_of(
                    es@,
                    i,
                ) != k by {
                    if is_open(es@, i, k as int) {
                        if i < t {
                            assert(es@[t as int].depth > es@[i].depth);
                        }
                        lemma_open_end(es@, i, i + 1, k as int);
                    } else {
                        lemma_closed_end(es@, i, k as int);
                    }
                }
                lemma_defs_ending_skip(ui, es@, k as int, 0, m);
                assert(defs_view(out@) + Seq::<DefV>::empty() =~= defs_view(out@));
            }
            break;
        }
        let ghost before = defs_view(out@);
        match stack.pop() {
            Some(f) => {
                assert(f == top);
                assert(end_of(es@, t as int) == k);
                idx_close(f, ui, es, out);
            },
            None => {},
        }
        proof {
            assert(before + (def_at(ui, es@, t as int) + defs_ending(ui, es@, k as int, t))
                =~= defs_view(out@) + defs_ending(ui, es@, k as int, t));
            assert forall|a: int| 0 <= a < stack@.len() implies #[trigger] stack@[a].at < t by {
                assert(old(stack)@[a].at < old(stack)@[n - 1].at);
            }
            assert forall|i: int|
                0 <= i < t && #[trigger] is_aggregate(es@[i]) && is_open(
                    es@,
                    i,
                    k as int,
                ) implies exists|a: int| 0 <= a < stack@.len() && #[trigger] stack@[a].at == i by {
                let a = choose|a: int| 0 <= a < n && #[trigger] old(stack)@[a].at == i;
                assert(stack@[a].at == i);
            }
            m = t;
        }
    }
    proof {
        if let Some(d) = depth {
            assert forall|a: int| 0 <= a < stack@.len() implies #[trigger] stack@[a].depth < d by {
                let last = stack@.len() - 1;
                if a < last {
                    assert(frame_ok(es@, old(stack)@[a], k as int));
                    assert(frame_ok(es@, old(stack)@[last], k as int));
                    assert(old(stack)@[a].at < old(stack)@[last].at);
                    assert(es@[stack@[last].at as int].depth > es@[stack@[a].at as int].depth);
                }
            }
        }
    }
}

proof fn lemma_has_part_step(es: Seq<Entry>, i: int, k: int)
    requires
        0 <= i < k < es.len(),
    ensures
        has_part(es, i, k + 1) == (has_part(es, i, k) || (is_part(es[k]) && es[k].depth
            == es[i].depth + 1)),
{
    if has_part(es, i, k) {
        let j = choose|j: int|
            i < j < k && #[trigger] is_part(es[j]) && es[j].depth == es[i].depth + 1;
        assert(is_part(es[j]));
    }
    if is_part(es[k]) && es[k].depth == es[i].depth + 1 {
        assert(is_part(es[k]));
    }
}

/// Takes one entry in: opens it where it is an aggregate, and notes a part with
/// the aggregate that it belongs to.
fn take_entry(stack: &mut Vec<IdxFrame>, es: &Vec<Entry>, k: usize)
    requires
        k < es@.len(),
        forall|a: int| 0 <= a < old(stack)@.len() ==> frame_ok(es@, #[trigger] old(stack)@[a], k as int),
        forall|a: int, b: int|
            0 <= a < b < old(stack)@.len() ==> #[trigger] old(stack)@[a].at
                < #[trigger] old(stack)@[b].at,
        forall|i: int|
            0 <= i < k && #[trigger] is_aggregate(es@[i]) && is_open(es@, i, k as int)
                && es@[i].depth < es@[k as int].depth ==> exists|a: int|
                0 <= a < old(stack)@.len() && #[trigger] old(stack)@[a].at == i,
        forall|a: int|
            0 <= a < old(stack)@.len() ==> #[trigger] old(stack)@[a].depth < es@[k as int].depth,
    ensures
        stack_ok(es@, final(stack)@, k + 1),
{
    let e: &Entry = &es[k];
    let n: usize = stack.len();
    proof {
        assert forall|a: int| 0 <= a < n implies #[trigger] is_open(
            es@,
            old(stack)@[a].at as int,
            k + 1,
        ) && has_part(es@, old(stack)@[a].at as int, k + 1) == (old(stack)@[a].has_child || (
        is_part(es@[k as int]) && a == n - 1 && es@[k as int].depth == old(stack)@[a].depth
            + 1)) by {
            assert(frame_ok(es@, old(stack)@[a], k as int));
            lemma_has_part_step(es@, old(stack)@[a].at as int, k as int);
            if a < n - 1 {
                assert(frame_ok(es@, old(stack)@[n - 1], k as int));
                assert(old(stack)@[a].at < old(stack)@[n - 1].at);
                assert(es@[old(stack)@[n - 1].at as int].depth > es@[old(
                    stack,
                )@[a].at as int].depth);
            }
        }
        assert(!has_part(es@, k as int, k + 1));
    }
    if e.tag == TAG_STRUCTURE_TYPE || e.tag == TAG_UNION_TYPE {
        stack.push(IdxFrame { at: k, depth: e.depth, decl: declared(e), has_child: false });
        proof {
            assert forall|a: int| 0 <= a < stack@.len() implies frame_ok(
                es@,
                #[trigger] stack@[a],
                k + 1,
            ) by {
                if a < n {
                    assert(stack@[a] == old(stack)@[a]);
                    assert(is_open(es@, old(stack)@[a].at as int, k + 1));
                }
            }
        }
    } else if n > 0 && (e.tag == TAG_MEMBER || e.tag == TAG_VARIANT_PART) && e.depth - 1
        == stack[n - 1].depth {
        let top: &IdxFrame = &stack[n - 1];
        let marked = IdxFrame { at: top.at, depth: top.depth, decl: top.decl, has_child: true };
        stack.set(n - 1, marked);
        proof {
            assert forall|a: int| 0 <= a < stack@.len() implies frame_ok(
                es@,
                #[trigger] stack@[a],
                k + 1,
            ) by {
                assert(is_open(es@, old(stack)@[a].at as int, k + 1));
            }
        }
    } else {
        proof {
            assert forall|a: int| 0 <= a < stack@.len() implies frame_ok(
                es@,
                #[trigger] stack@[a],
                k + 1,
            ) by {
                assert(is_open(es@, old(stack)@[a].at as int, k + 1));
            }
        }
    }
    proof {
        assert forall|i: int|
            0 <= i < k + 1 && #[trigger] is_aggregate(es@[i]) && is_open(
                es@,
                i,
                k + 1,
            ) implies exists|a: int| 0 <= a < stack@.len() && #[trigger] stack@[a].at == i by {
            if i < k {
                assert(is_open(es@, i, k as int));
                let a = choose|a: int| 0 <= a < n && #[trigger] old(stack)@[a].at == i;
                assert(stack@[a].at == i);
            } else {
                assert(stack@[n as int].at == k);
            }
        }
    }
}

/// Adds a unit's definitions to the index.
fn index_unit(ui: usize, unit: &Unit, out: &mut Vec<Def>)
    ensures
        defs_view(final(out)@) == defs_view(old(out)@) + defs_of_unit(ui, unit.dies()),
{
    let es: &Vec<Entry> = unit.entries();
    let ghost start = defs_view(out@);
    let mut stack: Vec<IdxFrame> = Vec::new();
    let mut k: usize = 0;
    assert(start + Seq::<DefV>::empty() =~= start);
    while k < es.len()
        invariant
            es@ == unit.dies(),
            k <= es@.len(),
            stack_ok(es@, stack@, k as int),
            defs_view(out@) == start + defs_before(ui, es@, k as nat),
        decreases es@.len() - k,
    {
        close_until(&mut stack, Some(es[k].depth), ui, es, k, out);
        take_entry(&mut stack, es, k);
        proof {
            assert(start + (defs_before(ui, es@, k as nat) + defs_ending(
                ui,
                es@,
                k as int,
                k as nat,
            )) =~= defs_view(out@));
        }
        k = k + 1;
    }
    close_until(&mut stack, None, ui, es, k, out);
    proof {
        assert(start + (defs_before(ui, es@, k as nat) + defs_ending(ui, es@, k as int, k as nat))
            =~= defs_view(out@));
    }
}

/// Lists the complete definitions of all units.
pub fn def_index(units: &Vec<Unit>) -> (r: Vec<Def>)
    ensures
        defs_view(r@) == all_defs(units@),
{
    let mut out: Vec<Def> = Vec::new();
    let mut ui: usize = 0;
    assert(defs_view(out@) =~= Seq::<DefV>::empty());
    while ui < units.len()
        invariant
            ui <= units@.len(),
            defs_view(out@) == defs_of(units@, ui as nat),
        decreases units@.len() - ui,
    {
        index_unit(ui, &units[ui], &mut out);
        ui = ui + 1;
    }
    out
}

/// The site of the first definition of that name, from the `k`th on.
pub open spec fn site_from(defs: Seq<DefV>, name: Seq<char>, k: nat) -> Option<Site>
    decreases defs.len() - k,
{
    if k >= defs.len() {
        None
    } else if defs[k as int].name == name {
        Some(defs[k as int].site)
    } else {
        site_from(defs, name, k + 1)
    }
}

/// The site of the first definition of that name.
pub fn definition(defs: &Vec<Def>, name: &str) -> (r: Option<Site>)
    ensures
        r == site_from(defs_view(defs@), name@, 0),
{
    let mut k: usize = 0;
    while k < defs.len()
        invariant
            k <= defs@.len(),
            site_from(defs_view(defs@), name@, 0) == site_from(
                defs_view(defs@),
                name@,
                k as nat,
            ),
        decreases defs@.len() - k,
    {
        if str_eq(defs[k].name.as_str(), name) {
            return Some(defs[k].site);
        }
        k = k + 1;
    }
    None
}

/// Whether a layout can be read from one of `kids` from the `k`th on.
pub open spec fn any_part(es: Seq<Entry>, kids: Seq<usize>, k: nat) -> bool
    decreases kids.len() - k,
{
    if k >= kids.len() {
        false
    } else {
        crate::die::tag_of(es, kids[k as int]) == Some(TAG_MEMBER) || crate::die::tag_of(
            es,
            kids[k as int],
        ) == Some(TAG_VARIANT_PART) || any_part(es, kids, k + 1)
    }
}

/// Whether the entry at an offset is a struct or union that no layout can be
/// read from: a declaration, or one of a size but without parts.
pub open spec fn stub_at(unit: Unit, off: usize) -> Result<bool, Fault> {
    let es = unit.dies();
    match crate::die::entry_at(es, off) {
        None => Err(Fault::Entry),
        Some(e) => if !is_aggregate(e) {
            Ok(false)
        } else if is_declaration(e) {
            Ok(true)
        } else {
            let size = crate::die::udata_of(es, off, AT_BYTE_SIZE);
            if size is None || size == Some(0u64) {
                Ok(false)
            } else {
                match crate::die::children(unit, off) {
                    Err(f) => Err(f),
                    Ok(kids) => Ok(!any_part(es, kids, 0)),
                }
            }
        },
    }
}

/// Whether the entry at an offset is a struct or union that no layout can be
/// read from.
pub fn is_stub(unit: &Unit, off: usize) -> (r: Result<bool, Fault>)
    ensures
        r == stub_at(*unit, off),
{
    let e: &Entry = match entry(unit, off) {
        None => {
            return Err(Fault::Entry);
        },
        Some(e) => e,
    };
    if !(e.tag == TAG_STRUCTURE_TYPE || e.tag == TAG_UNION_TYPE) {
        return Ok(false);
    }
    if declared(e) {
        return Ok(true);
    }
    match udata(unit, off, AT_BYTE_SIZE) {
        None => {
            return Ok(false);
        },
        Some(n) => {
            if n == 0 {
                return Ok(false);
            }
        },
    }
    let kids: Vec<usize> = match child_offsets(unit, off) {
        Ok(kids) => kids,
        Err(f) => {
            return Err(f);
        },
    };
    let mut k: usize = 0;
    while k < kids.len()
        invariant
            stub_at(*unit, off) == Ok::<bool, Fault>(!any_part(unit.dies(), kids@, k as nat)),
        decreases kids@.len() - k,
    {
        let t: Option<u16> = tag(unit, kids[k]);
        if t == Some(TAG_MEMBER) || t == Some(TAG_VARIANT_PART) {
            return Ok(false);
        }
        k = k + 1;
    }
    Ok(true)
}

/// Where to read the type at a site from: the definition of its name where it
/// is a stub and there is one, and itself otherwise.
pub open spec fn site_of(units: Seq<Unit>, site: Site) -> Result<Site, Fault> {
    if site.unit >= units.len() {
        Err(Fault::Entry)
    } else {
        let unit = units[site.unit as int];
        match stub_at(unit, site.off) {
            Err(f) => Err(f),
            Ok(false) => Ok(site),
            Ok(true) => match crate::die::name_of(unit.dies(), site.off) {
                None => Ok(site),
                Some(name) => match site_from(all_defs(units), name, 0) {
                    None => Ok(site),
                    Some(def) => Ok(def),
                },
            },
        }
    }
}

/// Finds where to read the type at a site from.
pub fn def_site(units: &Vec<Unit>, defs: &Vec<Def>, site: Site) -> (r: Result<Site, Fault>)
    requires
        defs_view(defs@) == all_defs(units@),
    ensures
        r == site_of(units@, site),
{
    if site.unit >= units.len() {
        return Err(Fault::Entry);
    }
    let unit: &Unit = &units[site.unit];
    match is_stub(unit, site.off) {
        Err(f) => Err(f),
        Ok(false) => Ok(site),
        Ok(true) => match die_name(unit, site.off) {
            None => Ok(site),
            Some(name) => match definition(defs, name.as_str()) {
                None => Ok(site),
                Some(def) => Ok(def),
            },
        },
    }
}

/// Whether a listed definition is one of the unit's.
pub open spec fn defined_in(es: Seq<Entry>, ui: usize, d: DefV) -> bool {
    exists|i: int| 0 <= i < es.len() && #[trigger] is_definition(es, i) && d == definition_at(ui, es, i)
}

/// The definition at `i`, as it is listed.
pub open spec fn definition_at(ui: usize, es: Seq<Entry>, i: int) -> DefV {
    DefV { name: es[i].name->Text_0@, site: Site { unit: ui, off: es[i].offset } }
}

proof fn lemma_defs_ending(ui: usize, es: Seq<Entry>, k: int, m: nat)
    requires
        m <= es.len(),
    ensures
        forall|a: int|
            0 <= a < defs_ending(ui, es, k, m).len() ==> defined_in(
                es,
                ui,
                #[trigger] defs_ending(ui, es, k, m)[a],
            ),
        forall|i: int|
            0 <= i < m && #[trigger] is_definition(es, i) && end_of(es, i) == k ==> defs_ending(
                ui,
                es,
                k,
                m,
            ).contains(definition_at(ui, es, i)),
    decreases m,
{
    if m > 0 {
        let j = m - 1;
        let rest = defs_ending(ui, es, k, j as nat);
        let all = defs_ending(ui, es, k, m);
        lemma_defs_ending(ui, es, k, j as nat);
        let first = if is_aggregate(es[j]) && end_of(es, j) == k {
            def_at(ui, es, j)
        } else {
            Seq::empty()
        };
        assert(all =~= first + rest);
        assert forall|a: int| 0 <= a < all.len() implies defined_in(es, ui, #[trigger] all[a]) by {
            if a < first.len() {
                assert(is_definition(es, j));
                assert(all[a] == definition_at(ui, es, j));
            } else {
                assert(all[a] == rest[a - first.len()]);
            }
        }
        assert forall|i: int| 0 <= i < m && #[trigger] is_definition(es, i) && end_of(es, i) == k implies all.contains(
            definition_at(ui, es, i),
        ) by {
            if i == j {
                assert(all[0] == definition_at(ui, es, i));
            } else {
                let a = choose|a: int| 0 <= a < rest.len() && rest[a] == definition_at(ui, es, i);
                assert(all[first.len() + a] == rest[a]);
            }
        }
    }
}

proof fn lemma_defs_before(ui: usize, es: Seq<Entry>, k: nat)
    requires
        k <= es.len() + 1,
    ensures
        forall|a: int|
            0 <= a < defs_before(ui, es, k).len() ==> defined_in(es, ui, #[trigger] defs_before(ui, es, k)[a]),
        forall|i: int|
            0 <= i < es.len() && #[trigger] is_definition(es, i) && end_of(es, i) < k ==> defs_before(
                ui,
                es,
                k,
            ).contains(definition_at(ui, es, i)),
    decreases k,
{
    if k == 0 {
        assert forall|i: int| 0 <= i < es.len() && #[trigger] is_definition(es, i) implies end_of(es, i) >= 0 by {
            lemma_end_grows(es, i, i + 1);
        }
    } else {
        let less = defs_before(ui, es, (k - 1) as nat);
        let more = defs_ending(ui, es, k - 1, (k - 1) as nat);
        let all = defs_before(ui, es, k);
        lemma_defs_before(ui, es, (k - 1) as nat);
        lemma_defs_ending(ui, es, k - 1, (k - 1) as nat);
        assert forall|a: int| 0 <= a < all.len() implies defined_in(es, ui, #[trigger] all[a]) by {
            if a < less.len() {
                assert(all[a] == less[a]);
            } else {
                assert(all[a] == more[a - less.len()]);
            }
        }
        assert forall|i: int| 0 <= i < es.len() && #[trigger] is_definition(es, i) && end_of(es, i) < k implies all.contains(
            definition_at(ui, es, i),
        ) by {
            let d = definition_at(ui, es, i);
            lemma_end_grows(es, i, i + 1);
            if end_of(es, i) < k - 1 {
                let a = choose|a: int| 0 <= a < less.len() && less[a] == d;
                assert(all[a] == d);
            } else {
                let a = choose|a: int| 0 <= a < more.len() && more[a] == d;
                assert(all[less.len() + a] == d);
            }
        }
    }
}

proof fn lemma_defs_of(units: Seq<Unit>, n: nat)
    requires
        n <= units.len(),
        units.len() <= usize::MAX,
    ensures
        forall|a: int|
            0 <= a < defs_of(units, n).len() ==> {
                let d = #[trigger] defs_of(units, n)[a];
                d.site.unit < n && defined_in(units[d.site.unit as int].dies(), d.site.unit, d)
            },
        forall|ui: int, i: int|
            0 <= ui < n && 0 <= i < units[ui].dies().len() && #[trigger] is_definition(units[ui].dies(), i)
                ==> defs_of(units, n).contains(definition_at(ui as usize, units[ui].dies(), i)),
    decreases n,
{
    if n > 0 {
        let u = (n - 1) as usize;
        let es = units[n - 1].dies();
        let less = defs_of(units, (n - 1) as nat);
        let more = defs_of_unit(u, es);
        let all = defs_of(units, n);
        lemma_defs_of(units, (n - 1) as nat);
        lemma_defs_before(u, es, es.len() + 1);
        assert forall|a: int| 0 <= a < all.len() implies ({
            let d = #[trigger] all[a];
            d.site.unit < n && defined_in(units[d.site.unit as int].dies(), d.site.unit, d)
        }) by {
            if a < less.len() {
                assert(all[a] == less[a]);
            } else {
                assert(all[a] == more[a - less.len()]);
                let d = all[a];
                let i = choose|i: int| 0 <= i < es.len() && #[trigger] is_definition(es, i) && d == definition_at(u, es, i);
                assert(d.site.unit == u);
            }
        }
        assert forall|ui: int, i: int|
            0 <= ui < n && 0 <= i < units[ui].dies().len() && #[trigger] is_definition(units[ui].dies(), i) implies all.contains(
            definition_at(ui as usize, units[ui].dies(), i),
        ) by {
            let d = definition_at(ui as usize, units[ui].dies(), i);
            if ui < n - 1 {
                let a = choose|a: int| 0 <= a < less.len() && less[a] == d;
                assert(all[a] == d);
            } else {
                lemma_end_at_most_len(es, i, i + 1);
                let a = choose|a: int| 0 <= a < more.len() && more[a] == d;
                assert(all[less.len() + a] == d);
            }
        }
    }
}

proof fn lemma_end_at_most_len(es: Seq<Entry>, i: int, m: int)
    requires
        0 <= m <= es.len(),
    ensures
        crate::die::subtree_end(es, i, m) <= es.len(),
    decreases es.len() - m,
{
    if m < es.len() && es[m].depth > es[i].depth {
        lemma_end_at_most_len(es, i, m + 1);
    }
}

/// The index lists the complete definitions, all of them and nothing else: whatever
/// is listed is a definition in the unit that it names, and every definition of
/// every unit is listed.
pub proof fn law_index_is_the_definitions(units: Seq<Unit>)
    requires
        units.len() <= usize::MAX,
    ensures
        forall|a: int|
            0 <= a < all_defs(units).len() ==> {
                let d = #[trigger] all_defs(units)[a];
                d.site.unit < units.len() && defined_in(units[d.site.unit as int].dies(), d.site.unit, d)
            },
        forall|ui: int, i: int|
            0 <= ui < units.len() && 0 <= i < units[ui].dies().len() && #[trigger] is_definition(
                units[ui].dies(),
                i,
            ) ==> all_defs(units).contains(definition_at(ui as usize, units[ui].dies(), i)),
{
    lemma_defs_of(units, units.len());
}

proof fn lemma_site_from(defs: Seq<DefV>, name: Seq<char>, k: nat)
    ensures
        site_from(defs, name, k) matches Some(site) ==> exists|a: int|
            k <= a < defs.len() && (#[trigger] defs[a]).name == name && defs[a].site == site,
    decreases defs.len() - k,
{
    if k < defs.len() && defs[k as int].name != name {
        lemma_site_from(defs, name, k + 1);
    }
}

/// A type is read from where it stands, or else, where that is a stub, from a
/// complete definition of its name.
pub proof fn law_stub_gives_way_to_its_definition(units: Seq<Unit>, site: Site, to: Site)
    requires
        units.len() <= usize::MAX,
        site_of(units, site) == Ok::<Site, Fault>(to),
    ensures
        to == site || {
            &&& stub_at(units[site.unit as int], site.off) == Ok::<bool, Fault>(true)
            &&& to.unit < units.len()
            &&& exists|name: Seq<char>|
                crate::die::name_of(units[site.unit as int].dies(), site.off) == Some(name)
                    && #[trigger] defined_in(units[to.unit as int].dies(), to.unit, (DefV { name, site: to }))
        },
{
    if to != site {
        law_index_is_the_definitions(units);
        let name = crate::die::name_of(units[site.unit as int].dies(), site.off)->0;
        lemma_site_from(all_defs(units), name, 0);
        let a = choose|a: int|
            0 <= a < all_defs(units).len() && (#[trigger] all_defs(units)[a]).name == name && all_defs(units)[a].site
                == to;
        assert(all_defs(units)[a] == (DefV { name, site: to }));
    }
}

/// A complete definition, over the tree of entries: a struct or union that says its own
/// name, is no mere declaration, and has a member or a variant part directly under it.
pub proof fn law_definition_has_parts(es: Seq<Entry>, i: int)
    requires
        0 <= i < es.len(),
    ensures
        is_definition(es, i) <==> {
            &&& es[i].tag == 0x13 || es[i].tag == 0x17
            &&& crate::die::attr_of(es[i], 0x3c) != Some(Attr::Flag(true))
            &&& es[i].name is Text
            &&& exists|j: int| #[trigger]
                crate::tree::is_child(es, i, j) && (es[j].tag == 0x0d || es[j].tag == 0x33)
        },
{
    let end = end_of(es, i);
    crate::tree::lemma_subtree_end(es, i, i + 1);
    if has_part(es, i, end) {
        let j = choose|j: int| i < j < end && #[trigger] is_part(es[j]) && es[j].depth == es[i].depth + 1;
        assert(crate::tree::is_child(es, i, j));
    }
    if exists|j: int| #[trigger] crate::tree::is_child(es, i, j) && (es[j].tag == 0x0d || es[j].tag == 0x33) {
        let j = choose|j: int| #[trigger]
            crate::tree::is_child(es, i, j) && (es[j].tag == 0x0d || es[j].tag == 0x33);
        if j >= end {
            assert(es[end].depth > es[i].depth);
        }
        assert(is_part(es[j]));
    }
}

proof fn lemma_any_part(es: Seq<Entry>, kids: Seq<usize>, k: nat)
    ensures
        any_part(es, kids, k) <==> exists|j: int|
            k <= j < kids.len() && (crate::die::tag_of(es, #[trigger] kids[j]) == Some(0x0du16) || crate::die::tag_of(
                es,
                kids[j],
            ) == Some(0x33u16)),
    decreases kids.len() - k,
{
    if k < kids.len() {
        lemma_any_part(es, kids, k + 1);
        let _ = kids[k as int];
    }
}

/// A stub, over the tree of entries: a struct or union that is a mere declaration, or
/// that has a size but neither a member nor a variant part directly under it.
pub proof fn law_stub_has_no_parts(unit: Unit, i: int)
    requires
        crate::die::ascending(unit.dies()),
        0 <= i < unit.dies().len(),
    ensures
        ({
            let es = unit.dies();
            let e = es[i];
            let parts = exists|j: int| #[trigger]
                crate::tree::is_child(es, i, j) && (es[j].tag == 0x0d || es[j].tag == 0x33);
            let declared = crate::die::attr_of(e, 0x3c) == Some(Attr::Flag(true));
            let sized = crate::die::udata_of(es, e.offset, 0x0b) matches Some(n) && n > 0;
            &&& stub_at(unit, e.offset) matches Ok(b) ==> b == ((e.tag == 0x13 || e.tag == 0x17) && (declared || (sized
                && !parts)))
            &&& unit.whole() ==> stub_at(unit, e.offset) is Ok
        }),
{
    let es = unit.dies();
    let off = es[i].offset;
    crate::die::lemma_index_of(es, off, i);
    crate::tree::law_children_are_what_stands_under(unit, off);
    if let Ok(kids) = crate::die::children(unit, off) {
        lemma_any_part(es, kids, 0);
        if any_part(es, kids, 0) {
            let k = choose|k: int|
                0 <= k < kids.len() && (crate::die::tag_of(es, #[trigger] kids[k]) == Some(0x0du16) || crate::die::tag_of(
                    es,
                    kids[k],
                ) == Some(0x33u16));
            let j = crate::tree::spot(es, kids[k]);
            assert(crate::tree::is_child(es, i, j));
        }
        if exists|j: int| #[trigger] crate::tree::is_child(es, i, j) && (es[j].tag == 0x0d || es[j].tag == 0x33) {
            let j = choose|j: int| #[trigger]
                crate::tree::is_child(es, i, j) && (es[j].tag == 0x0d || es[j].tag == 0x33);
            assert(kids.contains(es[j].offset));
            let k = choose|k: int| 0 <= k < kids.len() && kids[k] == es[j].offset;
            crate::die::lemma_index_of(es, es[j].offset, j);
            assert(crate::die::tag_of(es, kids[k]) == Some(es[j].tag));
        }
    }
}

proof fn lemma_site_from_some(defs: Seq<DefV>, name: Seq<char>, k: nat, a: int)
    requires
        k <= a < defs.len(),
        defs[a].name == name,
    ensures
        site_from(defs, name, k) is Some,
    decreases a - k,
{
    if defs[k as int].name != name {
        lemma_site_from_some(defs, name, k + 1, a);
    }
}

/// A stub of a name is read from a definition of that name wherever there is one, in
/// any unit; what is no stub is read where it stands.
pub proof fn law_stub_finds_its_definition(units: Seq<Unit>, site: Site, to: Site, name: Seq<char>, ui: int, i: int)
    requires
        units.len() <= usize::MAX,
        site_of(units, site) == Ok::<Site, Fault>(to),
        crate::die::name_of(units[site.unit as int].dies(), site.off) == Some(name),
        0 <= ui < units.len(),
        0 <= i < units[ui].dies().len(),
        is_definition(units[ui].dies(), i),
        units[ui].dies()[i].name matches Name::Text(s) && s@ == name,
    ensures
        stub_at(units[site.unit as int], site.off) == Ok::<bool, Fault>(true) ==> to.unit < units.len() && defined_in(
            units[to.unit as int].dies(),
            to.unit,
            (DefV { name, site: to }),
        ),
        stub_at(units[site.unit as int], site.off) == Ok::<bool, Fault>(false) ==> to == site,
{
    law_index_is_the_definitions(units);
    let defs = all_defs(units);
    let d = definition_at(ui as usize, units[ui].dies(), i);
    assert(defs.contains(d));
    let a = choose|a: int| 0 <= a < defs.len() && defs[a] == d;
    lemma_site_from_some(defs, name, 0, a);
    lemma_site_from(defs, name, 0);
    if stub_at(units[site.unit as int], site.off) == Ok::<bool, Fault>(true) {
        let b = choose|b: int| 0 <= b < defs.len() && (#[trigger] defs[b]).name == name && defs[b].site == to;
        assert(defs[b] == (DefV { name, site: to }));
    }
}

proof fn lemma_site_from_first(defs: Seq<DefV>, name: Seq<char>, k: nat)
    ensures
        match site_from(defs, name, k) {
            Some(site) => exists|a: int|
                k <= a < defs.len() && #[trigger] defs[a] == (DefV { name, site }) && forall|b: int|
                    k <= b < a ==> (#[trigger] defs[b]).name != name,
            None => forall|b: int| k <= b < defs.len() ==> (#[trigger] defs[b]).name != name,
        },
    decreases defs.len() - k,
{
    if k < defs.len() {
        if defs[k as int].name == name {
            assert(defs[k as int] == (DefV { name, site: defs[k as int].site }));
        } else {
            lemma_site_from_first(defs, name, k + 1);
            if let Some(site) = site_from(defs, name, k + 1) {
                let a = choose|a: int|
                    k + 1 <= a < defs.len() && #[trigger] defs[a] == (DefV { name, site }) && forall|b: int|
                        k + 1 <= b < a ==> (#[trigger] defs[b]).name != name;
                assert(defs[a] == (DefV { name, site }));
            }
        }
    }
}

/// Of several definitions of a name the first that is listed is taken; there is none
/// only where none is listed.
pub proof fn law_first_definition_is_taken(defs: Seq<DefV>, name: Seq<char>)
    ensures
        match site_from(defs, name, 0) {
            Some(site) => exists|a: int|
                0 <= a < defs.len() && #[trigger] defs[a] == (DefV { name, site }) && forall|b: int|
                    0 <= b < a ==> (#[trigger] defs[b]).name != name,
            None => forall|b: int| 0 <= b < defs.len() ==> (#[trigger] defs[b]).name != name,
        },
{
    lemma_site_from_first(defs, name, 0);
}

} // verus!
