//! Debugging information as plain values: compilation units, their entries
//! (DIEs) in the order of a depth-first walk, and the questions that the rest
//! of the library asks of them.
use crate::text::str_eq;
use vstd::prelude::*;
use vstd::string::*;

verus! {

pub const TAG_FORMAL_PARAMETER: u16 = 0x05;

pub const TAG_ENUMERATION_TYPE: u16 = 0x04;

pub const TAG_LEXICAL_BLOCK: u16 = 0x0b;

pub const TAG_MEMBER: u16 = 0x0d;

pub const TAG_POINTER_TYPE: u16 = 0x0f;

pub const TAG_STRUCTURE_TYPE: u16 = 0x13;

pub const TAG_TYPEDEF: u16 = 0x16;

pub const TAG_UNION_TYPE: u16 = 0x17;

pub const TAG_VARIANT: u16 = 0x19;

pub const TAG_INLINED_SUBROUTINE: u16 = 0x1d;

pub const TAG_BASE_TYPE: u16 = 0x24;

pub const TAG_CONST_TYPE: u16 = 0x26;

pub const TAG_SUBPROGRAM: u16 = 0x2e;

pub const TAG_TEMPLATE_TYPE_PARAMETER: u16 = 0x2f;

pub const TAG_VARIANT_PART: u16 = 0x33;

pub const TAG_VARIABLE: u16 = 0x34;

pub const TAG_VOLATILE_TYPE: u16 = 0x35;

pub const TAG_RESTRICT_TYPE: u16 = 0x37;

pub const AT_NAME: u16 = 0x03;

pub const AT_BYTE_SIZE: u16 = 0x0b;

pub const AT_LOW_PC: u16 = 0x11;

pub const AT_DISCR: u16 = 0x15;

pub const AT_DISCR_VALUE: u16 = 0x16;

pub const AT_ABSTRACT_ORIGIN: u16 = 0x31;

pub const AT_DATA_MEMBER_LOCATION: u16 = 0x38;

pub const AT_DECLARATION: u16 = 0x3c;

pub const AT_ENCODING: u16 = 0x3e;

pub const AT_FRAME_BASE: u16 = 0x40;

pub const AT_SPECIFICATION: u16 = 0x47;

pub const AT_TYPE: u16 = 0x49;

pub const AT_ALIGNMENT: u16 = 0x88;

/// What could not be read.
#[derive(Clone, Copy, PartialEq, Eq, Structural, Debug)]
pub enum Fault {
    /// No entry stands at that offset, or its children cannot be listed.
    Entry,
    /// A walk over a unit's entries, or over an entry's address ranges or
    /// locations, broke off.
    Broken,
    /// A location offset that does not end.
    Offset,
    /// A generic type without the type parameter that it is known for.
    Parameter,
    /// No pointer, capacity and length in a `Vec`-like type.
    Words,
    /// No function that builds a map of that value type.
    Trampoline,
    /// A size, or a sum of offsets, that 64 bits do not hold.
    Size,
    /// Types that lead to themselves without an end.
    Endless,
}

/// An attribute's value, as far as it is of use here.
#[derive(Debug)]
pub enum Attr {
    Udata(u64),
    Sdata(i64),
    UnitRef(usize),
    Exprloc(Vec<u8>),
    Flag(bool),
    Encoding(u8),
    Addr(u64),
    Other,
}

/// An entry's own name.
#[derive(Debug)]
pub enum Name {
    Absent,
    Unreadable,
    Text(String),
}

/// One entry of a location list: an expression that holds from `begin` to
/// before `end`.
#[derive(Debug)]
pub struct Span {
    pub begin: u64,
    pub end: u64,
    pub expr: Vec<u8>,
}

/// Where a variable is.
#[derive(Debug)]
pub enum Location {
    /// Not given, or not readable.
    Absent,
    Expr(Vec<u8>),
    List(Vec<Span>),
    /// A location list that breaks off after these entries.
    BrokenList(Vec<Span>),
}

/// The address ranges of an entry.
#[derive(Debug)]
pub enum Ranges {
    /// Each from its first address to before its second.
    All(Vec<(u64, u64)>),
    /// A list that breaks off after these ranges.
    Broken(Vec<(u64, u64)>),
}

/// One entry.
#[derive(Debug)]
pub struct Entry {
    /// Its offset in its unit.
    pub offset: usize,
    /// How many entries enclose it.
    pub depth: isize,
    pub tag: u16,
    pub name: Name,
    /// The attributes, each with its code.
    pub attrs: Vec<(u16, Attr)>,
    /// The discriminant of a variant.
    pub discr_value: Option<u64>,
    pub ranges: Ranges,
    pub location: Location,
}

/// A compilation unit.
#[derive(Debug)]
pub struct Unit {
    entries: Vec<Entry>,
    complete: bool,
}

/// Whether entries stand in the order of their offsets.
pub open spec fn ascending(es: Seq<Entry>) -> bool {
    forall|i: int, j: int| 0 <= i < j < es.len() ==> #[trigger] es[i].offset < #[trigger] es[j].offset
}

impl Unit {
    /// The unit's entries, in the order of a depth-first walk.
    pub closed spec fn dies(&self) -> Seq<Entry> {
        self.entries@
    }

    /// Whether the walk came to the unit's end.
    pub closed spec fn whole(&self) -> bool {
        self.complete
    }

    #[verifier::type_invariant]
    spec fn ordered(self) -> bool {
        ascending(self.entries@)
    }

    /// A unit of those entries; nothing where they are not in the order of
    /// their offsets.
    pub fn new(entries: Vec<Entry>, complete: bool) -> (r: Option<Unit>)
        ensures
            r is Some <==> ascending(entries@),
            r is Some ==> r->0.dies() == entries@ && r->0.whole() == complete,
    {
        let mut k: usize = 1;
        while k < entries.len()
            invariant
                1 <= k,
                forall|i: int, j: int|
                    0 <= i < j < k && j < entries@.len() ==> #[trigger] entries@[i].offset
                        < #[trigger] entries@[j].offset,
            decreases entries@.len() - k,
        {
            if entries[k - 1].offset >= entries[k].offset {
                return None;
            }
            k = k + 1;
        }
        Some(Unit { entries, complete })
    }

    /// The unit's entries.
    pub fn entries(&self) -> (r: &Vec<Entry>)
        ensures
            r@ == self.dies(),
            ascending(r@),
    {
        proof {
            use_type_invariant(self);
        }
        &self.entries
    }

    /// Whether the walk came to the unit's end.
    pub fn complete(&self) -> (r: bool)
        ensures
            r == self.whole(),
    {
        self.complete
    }
}

/// The position of the entry at an offset.
pub open spec fn index_of(es: Seq<Entry>, off: usize) -> Option<int> {
    if exists|k: int| 0 <= k < es.len() && es[k].offset == off {
        Some(choose|k: int| 0 <= k < es.len() && es[k].offset == off)
    } else {
        None
    }
}

/// In a unit an offset has one position at most.
pub proof fn lemma_index_of(es: Seq<Entry>, off: usize, k: int)
    requires
        ascending(es),
        0 <= k < es.len(),
        es[k].offset == off,
    ensures
        index_of(es, off) == Some(k),
{
    let c = index_of(es, off)->0;
    if c < k {
        assert(es[c].offset < es[k].offset);
    }
    if k < c {
        assert(es[k].offset < es[c].offset);
    }
}

/// Finds the entry at an offset.
pub fn find(unit: &Unit, off: usize) -> (r: Option<usize>)
    ensures
        match index_of(unit.dies(), off) {
            Some(k) => r is Some && r->0 == k && k < unit.dies().len(),
            None => r is None,
        },
        r is Some ==> unit.dies()[r->0 as int].offset == off,
{
    let es: &Vec<Entry> = unit.entries();
    let mut lo: usize = 0;
    let mut hi: usize = es.len();
    while lo < hi
        invariant
            lo <= hi <= es@.len(),
            ascending(es@),
            es@ == unit.dies(),
            forall|k: int| 0 <= k < lo ==> #[trigger] es@[k].offset < off,
            forall|k: int| hi <= k < es@.len() ==> #[trigger] es@[k].offset > off,
        decreases hi - lo,
    {
        let mid: usize = lo + (hi - lo) / 2;
        let at: usize = es[mid].offset;
        if at == off {
            proof {
                lemma_index_of(es@, off, mid as int);
            }
            return Some(mid);
        }
        if at < off {
            lo = mid + 1;
        } else {
            hi = mid;
        }
    }
    None
}

/// The entry at an offset.
pub open spec fn entry_at(es: Seq<Entry>, off: usize) -> Option<Entry> {
    match index_of(es, off) {
        Some(k) => Some(es[k]),
        None => None,
    }
}

/// The entry at an offset.
pub fn entry(unit: &Unit, off: usize) -> (r: Option<&Entry>)
    ensures
        match entry_at(unit.dies(), off) {
            Some(e) => r is Some && *r->0 == e,
            None => r is None,
        },
{
    match find(unit, off) {
        Some(k) => Some(&unit.entries()[k]),
        None => None,
    }
}

/// The first attribute of that code, from the `k`th on.
pub open spec fn attr_from(attrs: Seq<(u16, Attr)>, at: u16, k: nat) -> Option<Attr>
    decreases attrs.len() - k,
{
    if k >= attrs.len() {
        None
    } else if attrs[k as int].0 == at {
        Some(attrs[k as int].1)
    } else {
        attr_from(attrs, at, k + 1)
    }
}

/// The first attribute of that code.
pub open spec fn attr_of(e: Entry, at: u16) -> Option<Attr> {
    attr_from(e.attrs@, at, 0)
}

/// The first attribute of that code.
pub fn attr_value(e: &Entry, at: u16) -> (r: Option<&Attr>)
    ensures
        match attr_of(*e, at) {
            Some(a) => r is Some && *r->0 == a,
            None => r is None,
        },
{
    let mut k: usize = 0;
    while k < e.attrs.len()
        invariant
            k <= e.attrs@.len(),
            attr_of(*e, at) == attr_from(e.attrs@, at, k as nat),
        decreases e.attrs@.len() - k,
    {
        if e.attrs[k].0 == at {
            return Some(&e.attrs[k].1);
        }
        k = k + 1;
    }
    None
}

/// The end of the subtree of the entry at `i`: the position of the first entry
/// after it, from `k` on, that it does not enclose.
pub open spec fn subtree_end(es: Seq<Entry>, i: int, k: int) -> int
    decreases es.len() - k,
{
    if k < 0 || k >= es.len() || es[k].depth <= es[i].depth {
        k
    } else {
        subtree_end(es, i, k + 1)
    }
}

/// The offsets of the entries among `from..to` that stand directly under an
/// entry of depth `depth`.
pub open spec fn at_depth(es: Seq<Entry>, depth: int, from: int, to: int) -> Seq<usize>
    decreases to - from,
{
    if from < 0 || from >= to || from >= es.len() {
        Seq::empty()
    } else if es[from].depth == depth + 1 {
        seq![es[from].offset] + at_depth(es, depth, from + 1, to)
    } else {
        at_depth(es, depth, from + 1, to)
    }
}

/// The offsets of an entry's children, in order.
pub open spec fn children(unit: Unit, off: usize) -> Result<Seq<usize>, Fault> {
    let es = unit.dies();
    match index_of(es, off) {
        None => Err(Fault::Entry),
        Some(i) => {
            let end = subtree_end(es, i, i + 1);
            if end >= es.len() && !unit.whole() {
                Err(Fault::Entry)
            } else {
                Ok(at_depth(es, es[i].depth as int, i + 1, end))
            }
        },
    }
}

proof fn lemma_at_depth_snoc(es: Seq<Entry>, depth: int, from: int, to: int)
    requires
        0 <= from <= to < es.len(),
    ensures
        at_depth(es, depth, from, to + 1) == at_depth(es, depth, from, to) + (if es[to].depth == depth
            + 1 {
            seq![es[to].offset]
        } else {
            Seq::empty()
        }),
    decreases to - from,
{
    if from < to {
        lemma_at_depth_snoc(es, depth, from + 1, to);
        assert(at_depth(es, depth, from, to + 1) =~= at_depth(es, depth, from, to) + (
        if es[to].depth == depth + 1 {
            seq![es[to].offset]
        } else {
            Seq::empty()
        }));
    } else {
        assert(at_depth(es, depth, to + 1, to + 1) =~= Seq::empty());
        assert(at_depth(es, depth, from, to) =~= Seq::empty());
        assert(seq![es[to].offset] + Seq::<usize>::empty() =~= seq![es[to].offset]);
        assert(Seq::<usize>::empty() + seq![es[to].offset] =~= seq![es[to].offset]);
        assert(Seq::<usize>::empty() + Seq::<usize>::empty() =~= Seq::<usize>::empty());
    }
}

/// Every child is an entry of the unit.
proof fn lemma_at_depth_found(es: Seq<Entry>, depth: int, from: int, to: int, k: int)
    requires
        0 <= from,
        0 <= k < at_depth(es, depth, from, to).len(),
    ensures
        exists|j: int| from <= j < es.len() && es[j].offset == at_depth(es, depth, from, to)[k],
    decreases to - from,
{
    if from < to && from < es.len() {
        if es[from].depth == depth + 1 {
            if k > 0 {
                lemma_at_depth_found(es, depth, from + 1, to, k - 1);
                assert(at_depth(es, depth, from, to)[k] == at_depth(es, depth, from + 1, to)[k - 1]);
            } else {
                assert(es[from].offset == at_depth(es, depth, from, to)[k]);
            }
        } else {
            lemma_at_depth_found(es, depth, from + 1, to, k);
        }
    }
}

/// Lists an entry's children.
pub fn child_offsets(unit: &Unit, parent: usize) -> (r: Result<Vec<usize>, Fault>)
    ensures
        match children(*unit, parent) {
            Ok(kids) => r is Ok && r->Ok_0@ == kids,
            Err(e) => r == Err::<Vec<usize>, Fault>(e),
        },
{
    let es: &Vec<Entry> = unit.entries();
    match find(unit, parent) {
        None => Err(Fault::Entry),
        Some(i) => {
            let n: usize = es.len();
            let depth: isize = es[i].depth;
            let mut kids: Vec<usize> = Vec::new();
            assert(i < n);
            let mut k: usize = i + 1;
            assert(kids@ =~= at_depth(es@, depth as int, i + 1, k as int));
            while k < n && es[k].depth > depth
                invariant
                    es@ == unit.dies(),
                    i < k <= n,
                    n == es@.len(),
                    depth == es@[i as int].depth,
                    kids@ == at_depth(es@, depth as int, i + 1, k as int),
                    subtree_end(es@, i as int, i + 1) == subtree_end(es@, i as int, k as int),
                decreases es@.len() - k,
            {
                proof {
                    lemma_at_depth_snoc(es@, depth as int, i + 1, k as int);
                }
                if es[k].depth - 1 == depth {
                    kids.push(es[k].offset);
                }
                assert(kids@ =~= at_depth(es@, depth as int, i + 1, k + 1));
                k = k + 1;
            }
            if k >= n && !unit.complete() {
                return Err(Fault::Entry);
            }
            Ok(kids)
        },
    }
}

/// The entry that carries an inlined or specialised entry's name and type.
pub open spec fn origin_of(es: Seq<Entry>, off: usize) -> Option<usize> {
    match entry_at(es, off) {
        None => None,
        Some(e) => {
            let a = match attr_of(e, AT_ABSTRACT_ORIGIN) {
                Some(a) => Some(a),
                None => attr_of(e, AT_SPECIFICATION),
            };
            match a {
                Some(Attr::UnitRef(o)) => Some(o),
                _ => None,
            }
        },
    }
}

/// The entry that carries an inlined or specialised entry's name and type.
pub fn origin(unit: &Unit, off: usize) -> (r: Option<usize>)
    ensures
        r == origin_of(unit.dies(), off),
{
    match entry(unit, off) {
        None => None,
        Some(e) => {
            let a = match attr_value(e, AT_ABSTRACT_ORIGIN) {
                Some(a) => Some(a),
                None => attr_value(e, AT_SPECIFICATION),
            };
            match a {
                Some(Attr::UnitRef(o)) => Some(*o),
                _ => None,
            }
        },
    }
}

/// The name of the entry at an offset or, where it has none, of its origin, at
/// most `fuel` origins further.
pub open spec fn name_within(es: Seq<Entry>, off: usize, fuel: nat) -> Option<Seq<char>>
    decreases fuel,
{
    match entry_at(es, off) {
        None => None,
        Some(e) => match e.name {
            Name::Text(s) => Some(s@),
            Name::Unreadable => None,
            Name::Absent => match origin_of(es, off) {
                Some(o) => if fuel == 0 {
                    None
                } else {
                    name_within(es, o, (fuel - 1) as nat)
                },
                None => None,
            },
        },
    }
}

/// The name of the entry at an offset or, where it has none, of its origin. (A
/// chain of origins longer than the unit never comes to a name.)
pub open spec fn name_of(es: Seq<Entry>, off: usize) -> Option<Seq<char>> {
    name_within(es, off, es.len())
}

/// The name of the entry at an offset or, where it has none, of its origin.
pub fn die_name(unit: &Unit, off: usize) -> (r: Option<&String>)
    ensures
        match name_of(unit.dies(), off) {
            Some(s) => r is Some && r->0@ == s,
            None => r is None,
        },
{
    let mut fuel: usize = unit.entries().len();
    let mut at: usize = off;
    loop
        invariant
            name_of(unit.dies(), off) == name_within(unit.dies(), at, fuel as nat),
        decreases fuel,
    {
        match entry(unit, at) {
            None => {
                return None;
            },
            Some(e) => match &e.name {
                Name::Text(s) => {
                    return Some(s);
                },
                Name::Unreadable => {
                    return None;
                },
                Name::Absent => match origin(unit, at) {
                    None => {
                        return None;
                    },
                    Some(o) => {
                        if fuel == 0 {
                            return None;
                        }
                        at = o;
                        fuel = fuel - 1;
                    },
                },
            },
        }
    }
}

/// Whether the entry at an offset has that name.
pub open spec fn is_named(es: Seq<Entry>, off: usize, want: Seq<char>) -> bool {
    name_of(es, off) == Some(want)
}

/// Whether the entry at an offset has that name.
pub fn named(unit: &Unit, off: usize, want: &str) -> (r: bool)
    ensures
        r == is_named(unit.dies(), off, want@),
{
    match die_name(unit, off) {
        Some(s) => str_eq(s.as_str(), want),
        None => false,
    }
}

/// The tag of the entry at an offset.
pub open spec fn tag_of(es: Seq<Entry>, off: usize) -> Option<u16> {
    match entry_at(es, off) {
        Some(e) => Some(e.tag),
        None => None,
    }
}

/// The tag of the entry at an offset.
pub fn tag(unit: &Unit, off: usize) -> (r: Option<u16>)
    ensures
        r == tag_of(unit.dies(), off),
{
    match entry(unit, off) {
        Some(e) => Some(e.tag),
        None => None,
    }
}

/// The two's complement of a signed number in eight bytes.
pub open spec fn as_unsigned64(x: i64) -> u64 {
    if x < 0 {
        (x + 0x1_0000_0000_0000_0000) as u64
    } else {
        x as u64
    }
}

/// The two's complement of a signed number in eight bytes.
pub fn unsigned64_of(x: i64) -> (r: u64)
    ensures
        r == as_unsigned64(x),
{
    if x < 0 {
        u64::MAX - ((-(x + 1)) as u64)
    } else {
        x as u64
    }
}

/// The number that an attribute holds.
pub open spec fn udata_of(es: Seq<Entry>, off: usize, at: u16) -> Option<u64> {
    match entry_at(es, off) {
        None => None,
        Some(e) => match attr_of(e, at) {
            Some(Attr::Udata(n)) => Some(n),
            Some(Attr::Sdata(n)) => Some(as_unsigned64(n)),
            _ => None,
        },
    }
}

/// The number that an attribute holds.
pub fn udata(unit: &Unit, off: usize, at: u16) -> (r: Option<u64>)
    ensures
        r == udata_of(unit.dies(), off, at),
{
    match entry(unit, off) {
        None => None,
        Some(e) => match attr_value(e, at) {
            Some(Attr::Udata(n)) => Some(*n),
            Some(Attr::Sdata(n)) => Some(unsigned64_of(*n)),
            _ => None,
        },
    }
}

/// The discriminant of the variant at an offset.
pub open spec fn discr_of(es: Seq<Entry>, off: usize) -> Option<u64> {
    match entry_at(es, off) {
        None => None,
        Some(e) => e.discr_value,
    }
}

/// The discriminant of the variant at an offset.
pub fn attr_udata(unit: &Unit, off: usize) -> (r: Option<u64>)
    ensures
        r == discr_of(unit.dies(), off),
{
    match entry(unit, off) {
        None => None,
        Some(e) => e.discr_value,
    }
}

/// The type of the entry at an offset or, where it has none, of its origin, at
/// most `fuel` origins further.
pub open spec fn type_within(es: Seq<Entry>, off: usize, fuel: nat) -> Option<usize>
    decreases fuel,
{
    match entry_at(es, off) {
        None => None,
        Some(e) => match attr_of(e, AT_TYPE) {
            Some(Attr::UnitRef(o)) => Some(o),
            _ => match origin_of(es, off) {
                Some(o) => if fuel == 0 {
                    None
                } else {
                    type_within(es, o, (fuel - 1) as nat)
                },
                None => None,
            },
        },
    }
}

/// The type of the entry at an offset or, where it has none, of its origin. (A
/// chain of origins longer than the unit never comes to a type.)
pub open spec fn type_of(es: Seq<Entry>, off: usize) -> Option<usize> {
    type_within(es, off, es.len())
}

/// The type of the entry at an offset or, where it has none, of its origin.
pub fn type_ref(unit: &Unit, off: usize) -> (r: Option<usize>)
    ensures
        r == type_of(unit.dies(), off),
{
    let mut fuel: usize = unit.entries().len();
    let mut at: usize = off;
    loop
        invariant
            type_of(unit.dies(), off) == type_within(unit.dies(), at, fuel as nat),
        decreases fuel,
    {
        match entry(unit, at) {
            None => {
                return None;
            },
            Some(e) => match attr_value(e, AT_TYPE) {
                Some(Attr::UnitRef(o)) => {
                    return Some(*o);
                },
                _ => match origin(unit, at) {
                    None => {
                        return None;
                    },
                    Some(o) => {
                        if fuel == 0 {
                            return None;
                        }
                        at = o;
                        fuel = fuel - 1;
                    },
                },
            },
        }
    }
}

/// Whether a tag only wraps another type: a typedef or a qualifier.
pub open spec fn is_wrapper(tag: u16) -> bool {
    tag == TAG_TYPEDEF || tag == TAG_CONST_TYPE || tag == TAG_VOLATILE_TYPE || tag
        == TAG_RESTRICT_TYPE
}

/// The type that `fuel` wrappers at most stand around.
pub open spec fn strip_within(es: Seq<Entry>, off: usize, fuel: nat) -> Result<usize, Fault>
    decreases fuel,
{
    match tag_of(es, off) {
        None => Err(Fault::Entry),
        Some(t) => if !is_wrapper(t) {
            Ok(off)
        } else {
            match type_of(es, off) {
                None => Ok(off),
                Some(inner) => if fuel == 0 {
                    Err(Fault::Endless)
                } else {
                    strip_within(es, inner, (fuel - 1) as nat)
                },
            }
        },
    }
}

/// The type behind typedefs and qualifiers. (A chain of them longer than the
/// unit never comes to one.)
pub open spec fn stripped(es: Seq<Entry>, off: usize) -> Result<usize, Fault> {
    strip_within(es, off, es.len())
}

/// The type behind typedefs and qualifiers.
pub fn strip(unit: &Unit, off: usize) -> (r: Result<usize, Fault>)
    ensures
        r == stripped(unit.dies(), off),
{
    let mut fuel: usize = unit.entries().len();
    let mut at: usize = off;
    loop
        invariant
            stripped(unit.dies(), off) == strip_within(unit.dies(), at, fuel as nat),
        decreases fuel,
    {
        match tag(unit, at) {
            None => {
                return Err(Fault::Entry);
            },
            Some(t) => {
                if !(t == TAG_TYPEDEF || t == TAG_CONST_TYPE || t == TAG_VOLATILE_TYPE || t
                    == TAG_RESTRICT_TYPE) {
                    return Ok(at);
                }
                match type_ref(unit, at) {
                    None => {
                        return Ok(at);
                    },
                    Some(inner) => {
                        if fuel == 0 {
                            return Err(Fault::Endless);
                        }
                        at = inner;
                        fuel = fuel - 1;
                    },
                }
            },
        }
    }
}

/// The position of the first of `kids`, from the `k`th on, that has that tag
/// and, where a name is given, that name.
pub open spec fn first_kid(
    es: Seq<Entry>,
    kids: Seq<usize>,
    tag: u16,
    name: Option<Seq<char>>,
    k: nat,
) -> Option<usize>
    decreases kids.len() - k,
{
    if k >= kids.len() {
        None
    } else if tag_of(es, kids[k as int]) == Some(tag) && (name is Some ==> is_named(
        es,
        kids[k as int],
        name->0,
    )) {
        Some(kids[k as int])
    } else {
        first_kid(es, kids, tag, name, k + 1)
    }
}

/// The first child with that tag and, where a name is given, that name.
pub open spec fn child_where(unit: Unit, off: usize, tag: u16, name: Option<Seq<char>>) -> Result<
    Option<usize>,
    Fault,
> {
    match children(unit, off) {
        Err(e) => Err(e),
        Ok(kids) => Ok(first_kid(unit.dies(), kids, tag, name, 0)),
    }
}

/// The first child with that tag.
pub fn child_with_tag(unit: &Unit, off: usize, t: u16) -> (r: Result<Option<usize>, Fault>)
    ensures
        r == child_where(*unit, off, t, None),
{
    let kids: Vec<usize> = match child_offsets(unit, off) {
        Ok(kids) => kids,
        Err(e) => {
            return Err(e);
        },
    };
    let mut k: usize = 0;
    while k < kids.len()
        invariant
            children(*unit, off) == Ok::<Seq<usize>, Fault>(kids@),
            first_kid(unit.dies(), kids@, t, None, 0) == first_kid(
                unit.dies(),
                kids@,
                t,
                None,
                k as nat,
            ),
        decreases kids@.len() - k,
    {
        if tag(unit, kids[k]) == Some(t) {
            return Ok(Some(kids[k]));
        }
        k = k + 1;
    }
    Ok(None)
}

/// The first child with that tag and name.
pub fn child_named(unit: &Unit, off: usize, t: u16, name: &str) -> (r: Result<
    Option<usize>,
    Fault,
>)
    ensures
        r == child_where(*unit, off, t, Some(name@)),
{
    let kids: Vec<usize> = match child_offsets(unit, off) {
        Ok(kids) => kids,
        Err(e) => {
            return Err(e);
        },
    };
    let mut k: usize = 0;
    while k < kids.len()
        invariant
            children(*unit, off) == Ok::<Seq<usize>, Fault>(kids@),
            first_kid(unit.dies(), kids@, t, Some(name@), 0) == first_kid(
                unit.dies(),
                kids@,
                t,
                Some(name@),
                k as nat,
            ),
        decreases kids@.len() - k,
    {
        if tag(unit, kids[k]) == Some(t) && named(unit, kids[k], name) {
            return Ok(Some(kids[k]));
        }
        k = k + 1;
    }
    Ok(None)
}

/// The type of a generic type's first parameter or, where a name is given, of
/// the parameter of that name.
pub open spec fn param_of(unit: Unit, off: usize, name: Option<Seq<char>>) -> Result<
    Option<usize>,
    Fault,
> {
    match child_where(unit, off, TAG_TEMPLATE_TYPE_PARAMETER, name) {
        Err(e) => Err(e),
        Ok(None) => Ok(None),
        Ok(Some(c)) => Ok(type_of(unit.dies(), c)),
    }
}

/// The type of a generic type's first parameter.
pub fn template_param(unit: &Unit, off: usize) -> (r: Result<Option<usize>, Fault>)
    ensures
        r == param_of(*unit, off, None),
{
    match child_with_tag(unit, off, TAG_TEMPLATE_TYPE_PARAMETER) {
        Err(e) => Err(e),
        Ok(None) => Ok(None),
        Ok(Some(c)) => Ok(type_ref(unit, c)),
    }
}

/// The type of a generic type's parameter of that name.
pub fn template_named(unit: &Unit, off: usize, want: &str) -> (r: Result<Option<usize>, Fault>)
    ensures
        r == param_of(*unit, off, Some(want@)),
{
    match child_named(unit, off, TAG_TEMPLATE_TYPE_PARAMETER, want) {
        Err(e) => Err(e),
        Ok(None) => Ok(None),
        Ok(Some(c)) => Ok(type_ref(unit, c)),
    }
}

/// The name of a subprogram, or `<anon>` where it has none.
pub fn subprogram_name(unit: &Unit, sp: usize) -> (r: String)
    ensures
        r@ == (match name_of(unit.dies(), sp) {
            Some(s) => s,
            None => "<anon>"@,
        }),
{
    match die_name(unit, sp) {
        Some(s) => s.clone(),
        None => "<anon>".to_string(),
    }
}

} // verus!
