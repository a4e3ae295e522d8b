//! The tree that a unit's entries make up: which entry stands under which, as their
//! depths say, and what the children, the names and the types of entries are in it.
use crate::die::{ascending, attr_of, index_of, subtree_end, Attr, Entry, Fault, Name, Unit};
use vstd::prelude::*;

verus! {

/// Whether an entry encloses another: all up to that one are deeper.
pub open spec fn encloses(es: Seq<Entry>, p: int, c: int) -> bool {
    &&& 0 <= p < c < es.len()
    &&& forall|j: int| p < j <= c ==> (#[trigger] es[j]).depth > es[p].depth
}

/// Whether an entry stands directly under another.
pub open spec fn is_child(es: Seq<Entry>, p: int, c: int) -> bool {
    encloses(es, p, c) && es[c].depth == es[p].depth + 1
}

/// Where the entry at an offset stands.
pub open spec fn spot(es: Seq<Entry>, off: usize) -> int {
    index_of(es, off)->0
}

pub(crate) proof fn lemma_subtree_end(es: Seq<Entry>, i: int, k: int)
    requires
        0 <= i < k <= es.len(),
        forall|j: int| i < j < k ==> (#[trigger] es[j]).depth > es[i].depth,
    ensures
        k <= subtree_end(es, i, k) <= es.len(),
        forall|j: int| i < j < subtree_end(es, i, k) ==> (#[trigger] es[j]).depth > es[i].depth,
        subtree_end(es, i, k) < es.len() ==> es[subtree_end(es, i, k)].depth <= es[i].depth,
    decreases es.len() - k,
{
    if k < es.len() && es[k].depth > es[i].depth {
        lemma_subtree_end(es, i, k + 1);
    }
}

/// Whether offsets are, in order, those of the entries of a depth among some.
spec fn are_at_depth(es: Seq<Entry>, depth: int, from: int, to: int, kids: Seq<usize>) -> bool {
    &&& forall|k: int|
        0 <= k < kids.len() ==> index_of(es, #[trigger] kids[k]) is Some && from <= spot(es, kids[k]) < to
            && es[spot(es, kids[k])].depth == depth + 1
    &&& forall|j: int, k: int|
        0 <= j < k < kids.len() ==> spot(es, #[trigger] kids[j]) < spot(es, #[trigger] kids[k])
    &&& forall|c: int| from <= c < to && (#[trigger] es[c]).depth == depth + 1 ==> kids.contains(es[c].offset)
}

proof fn lemma_at_depth(es: Seq<Entry>, depth: int, from: int, to: int)
    requires
        ascending(es),
        0 <= from <= to <= es.len(),
    ensures
        are_at_depth(es, depth, from, to, crate::die::at_depth(es, depth, from, to)),
    decreases to - from,
{
    if from < to {
        lemma_at_depth(es, depth, from + 1, to);
        let rest = crate::die::at_depth(es, depth, from + 1, to);
        let kids = crate::die::at_depth(es, depth, from, to);
        crate::die::lemma_index_of(es, es[from].offset, from);
        if es[from].depth == depth + 1 {
            assert(kids == seq![es[from].offset] + rest);
            assert(kids[0] == es[from].offset);
            assert forall|k: int| 0 <= k < kids.len() implies index_of(es, #[trigger] kids[k]) is Some && from <= spot(
                es,
                kids[k],
            ) < to && es[spot(es, kids[k])].depth == depth + 1 by {
                if k > 0 {
                    assert(kids[k] == rest[k - 1]);
                }
            }
            assert forall|j: int, k: int| 0 <= j < k < kids.len() implies spot(es, #[trigger] kids[j]) < spot(
                es,
                #[trigger] kids[k],
            ) by {
                assert(kids[k] == rest[k - 1]);
                if j > 0 {
                    assert(kids[j] == rest[j - 1]);
                    assert(spot(es, rest[j - 1]) < spot(es, rest[k - 1]));
                } else {
                    assert(from + 1 <= spot(es, rest[k - 1]));
                }
            }
            assert forall|c: int| from <= c < to && (#[trigger] es[c]).depth == depth + 1 implies kids.contains(
                es[c].offset,
            ) by {
                if c > from {
                    assert(rest.contains(es[c].offset));
                    let i = choose|i: int| 0 <= i < rest.len() && rest[i] == es[c].offset;
                    assert(kids[i + 1] == es[c].offset);
                }
            }
        } else {
            assert(kids == rest);
        }
    }
}

/// The children of an entry are the entries that stand directly under it, all of them
/// and no others, in their order. They can be listed wherever the walk over the unit
/// came to its end.
pub proof fn law_children_are_what_stands_under(unit: Unit, off: usize)
    requires
        ascending(unit.dies()),
        index_of(unit.dies(), off) is Some,
    ensures
        unit.whole() ==> crate::die::children(unit, off) is Ok,
        crate::die::children(unit, off) matches Ok(kids) ==> {
            let es = unit.dies();
            &&& forall|k: int|
                0 <= k < kids.len() ==> index_of(es, #[trigger] kids[k]) is Some && is_child(
                    es,
                    spot(es, off),
                    spot(es, kids[k]),
                )
            &&& forall|j: int, k: int|
                0 <= j < k < kids.len() ==> spot(es, #[trigger] kids[j]) < spot(es, #[trigger] kids[k])
            &&& forall|c: int| #[trigger] is_child(es, spot(es, off), c) ==> kids.contains(es[c].offset)
        },
{
    let es = unit.dies();
    let p = spot(es, off);
    let end = subtree_end(es, p, p + 1);
    lemma_subtree_end(es, p, p + 1);
    lemma_at_depth(es, es[p].depth as int, p + 1, end);
    if let Ok(kids) = crate::die::children(unit, off) {
        assert(kids == crate::die::at_depth(es, es[p].depth as int, p + 1, end));
        assert forall|c: int| #[trigger] is_child(es, p, c) implies kids.contains(es[c].offset) by {
            if c >= end {
                assert(es[end].depth > es[p].depth);
            }
        }
    }
}

/// The children of an entry cannot be listed where the walk over the unit broke off among
/// what the entry encloses, and only there.
pub proof fn law_children_are_lost_where_the_walk_broke_off(unit: Unit, off: usize)
    requires
        index_of(unit.dies(), off) is Some,
    ensures
        crate::die::children(unit, off) is Err <==> !unit.whole() && forall|j: int|
            spot(unit.dies(), off) < j < unit.dies().len() ==> #[trigger] encloses(unit.dies(), spot(unit.dies(), off), j),
{
    let es = unit.dies();
    let p = spot(es, off);
    let end = subtree_end(es, p, p + 1);
    lemma_subtree_end(es, p, p + 1);
    if end < es.len() {
        assert(!encloses(es, p, end));
    } else {
        assert forall|j: int| p < j < es.len() implies #[trigger] encloses(es, p, j) by {}
    }
}

/// Whether an entry is a child of a tag and, where a name is given, of that name.
pub open spec fn is_such_child(es: Seq<Entry>, p: int, c: int, tag: u16, name: Option<Seq<char>>) -> bool {
    &&& is_child(es, p, c)
    &&& es[c].tag == tag
    &&& name matches Some(s) ==> crate::die::name_of(es, es[c].offset) == Some(s)
}

proof fn lemma_first_kid(es: Seq<Entry>, kids: Seq<usize>, tag: u16, name: Option<Seq<char>>, k: nat)
    ensures
        match crate::die::first_kid(es, kids, tag, name, k) {
            Some(off) => exists|j: int|
                k <= j < kids.len() && #[trigger] kids[j] == off && fits(es, off, tag, name) && forall|i: int|
                    k <= i < j ==> !fits(es, #[trigger] kids[i], tag, name),
            None => forall|j: int| k <= j < kids.len() ==> !fits(es, #[trigger] kids[j], tag, name),
        },
    decreases kids.len() - k,
{
    if k < kids.len() {
        if fits(es, kids[k as int], tag, name) {
            assert(kids[k as int] == kids[k as int]);
        } else {
            lemma_first_kid(es, kids, tag, name, k + 1);
            if let Some(off) = crate::die::first_kid(es, kids, tag, name, k + 1) {
                let j = choose|j: int|
                    k + 1 <= j < kids.len() && #[trigger] kids[j] == off && fits(es, off, tag, name) && forall|i: int|
                        k + 1 <= i < j ==> !fits(es, #[trigger] kids[i], tag, name);
                assert(kids[j] == off);
            }
        }
    }
}

/// Whether the entry at an offset is of a tag and, where a name is given, of that name.
spec fn fits(es: Seq<Entry>, off: usize, tag: u16, name: Option<Seq<char>>) -> bool {
    crate::die::tag_of(es, off) == Some(tag) && (name is Some ==> crate::die::is_named(es, off, name->0))
}

/// The child that is found for a tag and a name is the first of all that stand under
/// the entry and are such; where none is found, none is such.
pub proof fn law_child_found_is_first(unit: Unit, off: usize, tag: u16, name: Option<Seq<char>>)
    requires
        ascending(unit.dies()),
        index_of(unit.dies(), off) is Some,
    ensures
        unit.whole() ==> crate::die::child_where(unit, off, tag, name) is Ok,
        ({
            let es = unit.dies();
            let p = spot(es, off);
            match crate::die::child_where(unit, off, tag, name) {
                Ok(Some(c)) => {
                    &&& index_of(es, c) is Some
                    &&& is_such_child(es, p, spot(es, c), tag, name)
                    &&& forall|b: int| b < spot(es, c) ==> !(#[trigger] is_such_child(es, p, b, tag, name))
                },
                Ok(None) => forall|b: int| !(#[trigger] is_such_child(es, p, b, tag, name)),
                Err(_) => true,
            }
        }),
{
    let es = unit.dies();
    let p = spot(es, off);
    law_children_are_what_stands_under(unit, off);
    if let Ok(kids) = crate::die::children(unit, off) {
        lemma_first_kid(es, kids, tag, name, 0);
        assert forall|b: int| #[trigger] is_such_child(es, p, b, tag, name) implies exists|j: int|
            0 <= j < kids.len() && #[trigger] kids[j] == es[b].offset && spot(es, kids[j]) == b && fits(
                es,
                kids[j],
                tag,
                name,
            ) by {
            assert(kids.contains(es[b].offset));
            let j = choose|j: int| 0 <= j < kids.len() && kids[j] == es[b].offset;
            crate::die::lemma_index_of(es, es[b].offset, b);
            assert(kids[j] == es[b].offset);
        }
        if let Some(c) = crate::die::first_kid(es, kids, tag, name, 0) {
            let j = choose|j: int|
                0 <= j < kids.len() && #[trigger] kids[j] == c && fits(es, c, tag, name) && forall|i: int|
                    0 <= i < j ==> !fits(es, #[trigger] kids[i], tag, name);
            let at = spot(es, c);
            assert(is_child(es, p, at));
            assert(es[at].offset == c);
            assert forall|b: int| b < at implies !(#[trigger] is_such_child(es, p, b, tag, name)) by {
                if is_such_child(es, p, b, tag, name) {
                    let i = choose|i: int|
                        0 <= i < kids.len() && #[trigger] kids[i] == es[b].offset && spot(es, kids[i]) == b && fits(
                            es,
                            kids[i],
                            tag,
                            name,
                        );
                    if i > j {
                        assert(spot(es, kids[j]) < spot(es, kids[i]));
                    }
                }
            }
        }
    }
}

// ---------------------------------------------------------------------------
// Names and types.
// ---------------------------------------------------------------------------

/// Whether an entry takes what it does not say itself from the entry at an offset: the
/// one that it is an instance of or, where it is an instance of none, the one that it
/// completes.
pub open spec fn stands_for(e: Entry, o: usize) -> bool {
    match attr_of(e, 0x31) {
        Some(a) => a == Attr::UnitRef(o),
        None => attr_of(e, 0x47) == Some(Attr::UnitRef(o)),
    }
}

/// Whether the entry at an offset is called something, be it through so many others
/// that it stands for, none of which says its own name.
pub open spec fn called(es: Seq<Entry>, off: usize, s: Seq<char>, n: nat) -> bool
    decreases n,
{
    exists|i: int|
        0 <= i < es.len() && (#[trigger] es[i]).offset == off && if n == 0 {
            es[i].name matches Name::Text(t) && t@ == s
        } else {
            es[i].name is Absent && exists|o: usize| #[trigger]
                stands_for(es[i], o) && called(es, o, s, (n - 1) as nat)
        }
}

/// Whether the entry at an offset is of the type at another, be it through so many
/// others that it stands for, none of which says its own type.
pub open spec fn typed(es: Seq<Entry>, off: usize, t: usize, n: nat) -> bool
    decreases n,
{
    exists|i: int|
        0 <= i < es.len() && (#[trigger] es[i]).offset == off && if n == 0 {
            attr_of(es[i], 0x49) == Some(Attr::UnitRef(t))
        } else {
            !(attr_of(es[i], 0x49) matches Some(Attr::UnitRef(_))) && exists|o: usize| #[trigger]
                stands_for(es[i], o) && typed(es, o, t, (n - 1) as nat)
        }
}

proof fn lemma_origin(es: Seq<Entry>, i: int)
    requires
        ascending(es),
        0 <= i < es.len(),
    ensures
        index_of(es, es[i].offset) == Some(i),
        forall|o: usize| #[trigger] stands_for(es[i], o) <==> crate::die::origin_of(es, es[i].offset) == Some(o),
{
    crate::die::lemma_index_of(es, es[i].offset, i);
}

proof fn lemma_called(es: Seq<Entry>, off: usize, s: Seq<char>, fuel: nat)
    requires
        ascending(es),
    ensures
        crate::die::name_within(es, off, fuel) == Some(s) <==> exists|n: nat| n <= fuel && #[trigger] called(es, off, s, n),
    decreases fuel,
{
    match index_of(es, off) {
        None => {},
        Some(i) => {
            lemma_origin(es, i);
            assert(es[i].offset == off);
            assert forall|j: int| 0 <= j < es.len() && (#[trigger] es[j]).offset == off implies j == i by {
                crate::die::lemma_index_of(es, off, j);
            }
            match crate::die::origin_of(es, off) {
                Some(o) => {
                    assert(stands_for(es[i], o));
                    if fuel > 0 {
                        lemma_called(es, o, s, (fuel - 1) as nat);
                    }
                },
                None => {},
            }
            if crate::die::name_within(es, off, fuel) == Some(s) {
                if es[i].name is Text {
                    assert(called(es, off, s, 0));
                } else {
                    let o = crate::die::origin_of(es, off)->0;
                    let n = choose|n: nat| n <= fuel - 1 && #[trigger] called(es, o, s, n);
                    assert(called(es, off, s, n + 1));
                }
            }
            if exists|n: nat| n <= fuel && #[trigger] called(es, off, s, n) {
                let n = choose|n: nat| n <= fuel && #[trigger] called(es, off, s, n);
                if n > 0 {
                    let o = choose|o: usize| #[trigger] stands_for(es[i], o) && called(es, o, s, (n - 1) as nat);
                    assert(called(es, o, s, (n - 1) as nat));
                }
            }
        },
    }
}

/// The name that an entry has is its own or, where it has none, the name of what it
/// stands for, as often as that many entries allow.
pub proof fn law_name_is_own_or_taken_over(es: Seq<Entry>, off: usize, s: Seq<char>)
    requires
        ascending(es),
    ensures
        crate::die::name_of(es, off) == Some(s) <==> exists|n: nat| n <= es.len() && #[trigger] called(es, off, s, n),
{
    lemma_called(es, off, s, es.len());
}

proof fn lemma_typed(es: Seq<Entry>, off: usize, t: usize, fuel: nat)
    requires
        ascending(es),
    ensures
        crate::die::type_within(es, off, fuel) == Some(t) <==> exists|n: nat| n <= fuel && #[trigger] typed(es, off, t, n),
    decreases fuel,
{
    match index_of(es, off) {
        None => {},
        Some(i) => {
            lemma_origin(es, i);
            assert(es[i].offset == off);
            assert forall|j: int| 0 <= j < es.len() && (#[trigger] es[j]).offset == off implies j == i by {
                crate::die::lemma_index_of(es, off, j);
            }
            match crate::die::origin_of(es, off) {
                Some(o) => {
                    assert(stands_for(es[i], o));
                    if fuel > 0 {
                        lemma_typed(es, o, t, (fuel - 1) as nat);
                    }
                },
                None => {},
            }
            if crate::die::type_within(es, off, fuel) == Some(t) {
                if attr_of(es[i], 0x49) matches Some(Attr::UnitRef(_)) {
                    assert(typed(es, off, t, 0));
                } else {
                    let o = crate::die::origin_of(es, off)->0;
                    let n = choose|n: nat| n <= fuel - 1 && #[trigger] typed(es, o, t, n);
                    assert(typed(es, off, t, n + 1));
                }
            }
            if exists|n: nat| n <= fuel && #[trigger] typed(es, off, t, n) {
                let n = choose|n: nat| n <= fuel && #[trigger] typed(es, off, t, n);
                if n > 0 {
                    let o = choose|o: usize| #[trigger] stands_for(es[i], o) && typed(es, o, t, (n - 1) as nat);
                    assert(typed(es, o, t, (n - 1) as nat));
                }
            }
        },
    }
}

/// The type that an entry has is its own or, where it has none, the type of what it
/// stands for, as often as that many entries allow.
pub proof fn law_type_is_own_or_taken_over(es: Seq<Entry>, off: usize, t: usize)
    requires
        ascending(es),
    ensures
        crate::die::type_of(es, off) == Some(t) <==> exists|n: nat| n <= es.len() && #[trigger] typed(es, off, t, n),
{
    lemma_typed(es, off, t, es.len());
}

/// Whether an entry is a typedef or a qualifier.
pub open spec fn is_alias(e: Entry) -> bool {
    e.tag == 0x16 || e.tag == 0x26 || e.tag == 0x35 || e.tag == 0x37
}

/// Whether so many typedefs and qualifiers lead from one type to another.
pub open spec fn aliases(es: Seq<Entry>, off: usize, to: usize, n: nat) -> bool
    decreases n,
{
    exists|i: int|
        0 <= i < es.len() && (#[trigger] es[i]).offset == off && if n == 0 {
            to == off && (!is_alias(es[i]) || crate::die::type_of(es, off) is None)
        } else {
            is_alias(es[i]) && (crate::die::type_of(es, off) matches Some(t) && aliases(es, t, to, (n - 1) as nat))
        }
}

proof fn lemma_aliases(es: Seq<Entry>, off: usize, to: usize, fuel: nat)
    requires
        ascending(es),
    ensures
        crate::die::strip_within(es, off, fuel) == Ok::<usize, Fault>(to) <==> exists|n: nat|
            n <= fuel && #[trigger] aliases(es, off, to, n),
    decreases fuel,
{
    match index_of(es, off) {
        None => {},
        Some(i) => {
            assert(es[i].offset == off);
            assert forall|j: int| 0 <= j < es.len() && (#[trigger] es[j]).offset == off implies j == i by {
                crate::die::lemma_index_of(es, off, j);
            }
            if let Some(t) = crate::die::type_of(es, off) {
                if fuel > 0 {
                    lemma_aliases(es, t, to, (fuel - 1) as nat);
                }
            }
            if crate::die::strip_within(es, off, fuel) == Ok::<usize, Fault>(to) {
                if !is_alias(es[i]) || crate::die::type_of(es, off) is None {
                    assert(aliases(es, off, to, 0));
                } else {
                    let t = crate::die::type_of(es, off)->0;
                    let n = choose|n: nat| n <= fuel - 1 && #[trigger] aliases(es, t, to, n);
                    assert(aliases(es, off, to, n + 1));
                }
            }
            if exists|n: nat| n <= fuel && #[trigger] aliases(es, off, to, n) {
                let n = choose|n: nat| n <= fuel && #[trigger] aliases(es, off, to, n);
                if n > 0 {
                    let t = crate::die::type_of(es, off)->0;
                    assert(aliases(es, t, to, (n - 1) as nat));
                }
            }
        },
    }
}

/// The type behind typedefs and qualifiers is where they lead to.
pub proof fn law_typedefs_and_qualifiers_are_followed(es: Seq<Entry>, off: usize, to: usize)
    requires
        ascending(es),
    ensures
        crate::die::stripped(es, off) == Ok::<usize, Fault>(to) <==> exists|n: nat|
            n <= es.len() && #[trigger] aliases(es, off, to, n),
{
    lemma_aliases(es, off, to, es.len());
}

/// The number under a code is the one that the entry has there, a negative one in two's
/// complement; there is none where the entry has none.
pub proof fn law_number_is_the_entrys(es: Seq<Entry>, i: int, at: u16)
    requires
        ascending(es),
        0 <= i < es.len(),
    ensures
        match attr_of(es[i], at) {
            Some(Attr::Udata(n)) => crate::die::udata_of(es, es[i].offset, at) == Some(n),
            Some(Attr::Sdata(n)) => crate::die::udata_of(es, es[i].offset, at) matches Some(m) && m == n as int
                % 0x1_0000_0000_0000_0000,
            _ => crate::die::udata_of(es, es[i].offset, at) is None,
        },
{
    crate::die::lemma_index_of(es, es[i].offset, i);
    if let Some(Attr::Sdata(n)) = attr_of(es[i], at) {
        if n < 0 {
            assert(n + 0x1_0000_0000_0000_0000 == n as int % 0x1_0000_0000_0000_0000);
        } else {
            assert(n == n as int % 0x1_0000_0000_0000_0000);
        }
    }
}

/// The attribute under a code is the first that the entry lists under it.
pub proof fn law_attribute_is_the_first(e: Entry, at: u16)
    ensures
        match attr_of(e, at) {
            Some(a) => exists|k: int|
                0 <= k < e.attrs@.len() && (#[trigger] e.attrs@[k]) == (at, a) && forall|j: int|
                    0 <= j < k ==> (#[trigger] e.attrs@[j]).0 != at,
            None => forall|k: int| 0 <= k < e.attrs@.len() ==> (#[trigger] e.attrs@[k]).0 != at,
        },
{
    lemma_attr_from(e.attrs@, at, 0);
}

proof fn lemma_attr_from(attrs: Seq<(u16, Attr)>, at: u16, k: nat)
    ensures
        match crate::die::attr_from(attrs, at, k) {
            Some(a) => exists|i: int|
                k <= i < attrs.len() && (#[trigger] attrs[i]) == (at, a) && forall|j: int|
                    k <= j < i ==> (#[trigger] attrs[j]).0 != at,
            None => forall|i: int| k <= i < attrs.len() ==> (#[trigger] attrs[i]).0 != at,
        },
    decreases attrs.len() - k,
{
    if k < attrs.len() {
        if attrs[k as int].0 == at {
            assert(attrs[k as int] == (at, attrs[k as int].1));
        } else {
            lemma_attr_from(attrs, at, k + 1);
            if let Some(a) = crate::die::attr_from(attrs, at, k + 1) {
                let i = choose|i: int|
                    k + 1 <= i < attrs.len() && (#[trigger] attrs[i]) == (at, a) && forall|j: int|
                        k + 1 <= j < i ==> (#[trigger] attrs[j]).0 != at;
                assert(attrs[i] == (at, a));
            }
        }
    }
}

} // verus!
