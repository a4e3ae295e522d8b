//! What the layout of a type says, over the tree of entries: which entries it is read
//! from, and that every offset, size, discriminant and address in it is the one that
//! these entries give.
use crate::classify::{
    align_at, base_layout, boxed_layout, classified, fields_among, label, last_member, layout_of, map_layout,
    option_layout, part_layout, size_of, struct_layout, trampoline, unit_at, variant_at, variants_among, vec_layout,
    words_among, words_in, Variants, Words, MAX_WORD_DEPTH,
};
use crate::die::{ascending, attr_of, index_of, name_of, stripped, type_of, udata_of, Attr, Entry, Fault, Unit};
use crate::plan::{FieldV, SeqLayout, Site, TyV};
use crate::tree::{is_child, is_such_child, spot};
use vstd::prelude::*;

verus! {

// ---------------------------------------------------------------------------
// What entries give.
// ---------------------------------------------------------------------------

/// Whether each unit's entries stand in order.
pub open spec fn all_ascending(units: Seq<Unit>) -> bool {
    forall|k: int| 0 <= k < units.len() ==> ascending((#[trigger] units[k]).dies())
}

/// An entry's name, or no text.
pub open spec fn title(es: Seq<Entry>, off: usize) -> Seq<char> {
    match name_of(es, off) {
        Some(s) => s,
        None => Seq::empty(),
    }
}

/// The number that an entry has under a code, or another.
pub open spec fn given(es: Seq<Entry>, off: usize, at: u16, or: u64) -> u64 {
    match udata_of(es, off, at) {
        Some(n) => n,
        None => or,
    }
}

/// Where in its type a member lies.
pub open spec fn lies(es: Seq<Entry>, off: usize) -> usize {
    given(es, off, 0x38, 0) as usize
}

/// Whether an entry is the first child of a tag and, where one is given, of a name.
pub open spec fn is_first(es: Seq<Entry>, p: int, c: int, tag: u16, name: Option<Seq<char>>) -> bool {
    is_such_child(es, p, c, tag, name) && forall|b: int| b < c ==> !(#[trigger] is_such_child(es, p, b, tag, name))
}

/// Whether a type is the one that a generic type has for its first parameter or, where
/// a name is given, for the parameter of that name.
pub open spec fn is_parameter(es: Seq<Entry>, off: usize, name: Option<Seq<char>>, t: usize) -> bool {
    exists|c: int| #[trigger]
        is_first(es, spot(es, off), c, 0x2f, name) && type_of(es, es[c].offset) == Some(t)
}

/// Whether an alignment is that of a type of a size: the one given, else the least
/// power of two that is not below the size.
pub open spec fn is_aligned(es: Seq<Entry>, off: usize, size: u64, align: u64) -> bool {
    match udata_of(es, off, 0x88) {
        Some(n) => align == n,
        None => {
            &&& crate::arith::is_pow2(align as nat)
            &&& align >= size
            &&& forall|q: u64| crate::arith::is_pow2(q as nat) && q >= size && q >= 1 ==> align <= q
        },
    }
}

/// Whether a type of that name has its parameter's layout.
pub open spec fn wraps(name: Seq<char>) -> bool {
    ||| crate::text::begins(name, "MaybeUninit<"@)
    ||| crate::text::begins(name, "ManuallyDrop<"@)
    ||| crate::text::begins(name, "UnsafeCell<"@)
}

/// Whether the type at a site is read from the entry at another: typedefs and
/// qualifiers are left out, a stub gives way to its definition, and so many wrappers to
/// what they wrap.
pub open spec fn leads(units: Seq<Unit>, site: Site, at: Site, n: nat) -> bool
    decreases n,
{
    &&& site.unit < units.len()
    &&& stripped(units[site.unit as int].dies(), site.off) matches Ok(off)
    &&& crate::index::site_of(units, (Site { unit: site.unit, off })) matches Ok(def)
    &&& def.unit < units.len()
    &&& index_of(units[def.unit as int].dies(), def.off) is Some
    &&& if n == 0 {
        at == def && !wraps(title(units[def.unit as int].dies(), def.off))
    } else {
        wraps(title(units[def.unit as int].dies(), def.off)) && exists|t: usize| #[trigger]
            is_parameter(units[def.unit as int].dies(), def.off, None, t) && leads(
                units,
                Site { unit: def.unit, off: t },
                at,
                (n - 1) as nat,
            )
    }
}

// ---------------------------------------------------------------------------
// The words of a `Vec`-like type.
// ---------------------------------------------------------------------------

/// A word of a `Vec`-like type.
pub enum Word {
    Pointer,
    Capacity,
    Length,
}

/// Whether a member of that name is the word.
pub open spec fn names_word(w: Word, name: Option<Seq<char>>) -> bool {
    match w {
        Word::Pointer => false,
        Word::Capacity => name == Some("cap"@) || name == Some("capacity"@),
        Word::Length => name == Some("len"@) || name == Some("length"@),
    }
}

/// Whether a word of a type that lies at `base` lies at `off`: a pointer is a word, a
/// member is one by its name, and a struct or union has the words of its members, each
/// where the member lies.
pub open spec fn has_word(units: Seq<Unit>, site: Site, base: int, w: Word, off: int, d: nat) -> bool
    decreases d,
{
    &&& site.unit < units.len()
    &&& stripped(units[site.unit as int].dies(), site.off) matches Ok(o)
    &&& crate::index::site_of(units, (Site { unit: site.unit, off: o })) matches Ok(def)
    &&& def.unit < units.len()
    &&& index_of(units[def.unit as int].dies(), def.off) is Some
    &&& {
        let es = units[def.unit as int].dies();
        let i = spot(es, def.off);
        ||| es[i].tag == 0x0f && w is Pointer && off == base
        ||| (es[i].tag == 0x13 || es[i].tag == 0x17) && exists|m: int| #[trigger]
            is_such_child(es, i, m, 0x0d, None) && {
                ||| names_word(w, name_of(es, es[m].offset)) && off == base + lies(es, es[m].offset)
                ||| d > 0 && (type_of(es, es[m].offset) matches Some(t) && has_word(
                    units,
                    Site { unit: def.unit, off: t },
                    base + lies(es, es[m].offset),
                    w,
                    off,
                    (d - 1) as nat,
                ))
            }
    }
}

/// Whether the words of a `Vec`-like type are where they are said to be.
pub open spec fn has_words(units: Seq<Unit>, at: Site, seq: SeqLayout) -> bool {
    &&& has_word(units, at, 0, Word::Pointer, seq.ptr_off as int, 16)
    &&& has_word(units, at, 0, Word::Capacity, seq.cap_off as int, 16)
    &&& has_word(units, at, 0, Word::Length, seq.len_off as int, 16)
}

/// Whether a member of that name lies somewhere: the last of that name; nowhere else
/// than at the start where there is none.
pub open spec fn last_lies(es: Seq<Entry>, p: int, name: Seq<char>, off: usize) -> bool {
    ||| exists|m: int| #[trigger]
        is_such_child(es, p, m, 0x0d, Some(name)) && off == lies(es, es[m].offset) && forall|b: int|
            b > m ==> !(#[trigger] is_such_child(es, p, b, 0x0d, Some(name)))
    ||| off == 0 && forall|m: int| !(#[trigger] is_such_child(es, p, m, 0x0d, Some(name)))
}

// ---------------------------------------------------------------------------
// The functions that build maps.
// ---------------------------------------------------------------------------

/// What stands between the first `<` of a name and its last character.
pub open spec fn is_bracketed(name: Seq<char>, inner: Seq<char>) -> bool {
    exists|lt: int|
        0 <= lt < name.len() - 1 && #[trigger] name[lt] == '<' && (forall|j: int|
            0 <= j < lt ==> #[trigger] name[j] != '<') && inner == name.subrange(lt + 1, name.len() - 1)
}

/// Whether a name is that of a function for maps of a value type: of all, where no type
/// is given.
pub open spec fn builds(name: Seq<char>, prefix: Seq<char>, v: Option<Seq<char>>) -> bool {
    &&& crate::text::begins(name, prefix)
    &&& v matches Some(want) ==> exists|inner: Seq<char>| #[trigger]
        is_bracketed(name, inner) && crate::tramp::short_name(inner) == crate::tramp::short_name(want)
}

/// Whether the entry at a position is a subprogram with code that builds such maps.
pub open spec fn is_builder(es: Seq<Entry>, i: int, prefix: Seq<char>, v: Option<Seq<char>>) -> bool {
    &&& 0 <= i < es.len()
    &&& es[i].tag == 0x2e
    &&& attr_of(es[i], 0x11) matches Some(Attr::Addr(_))
    &&& builds(title(es, es[i].offset), prefix, v)
}

/// Whether an address is that of the first subprogram that builds such maps, where it
/// is at run time.
pub open spec fn built_at(units: Seq<Unit>, slide: u64, prefix: Seq<char>, v: Option<Seq<char>>, addr: u64) -> bool {
    exists|ui: int, i: int| #[trigger]
        builder_at(units, ui, i, prefix, v) && (attr_of(units[ui].dies()[i], 0x11) matches Some(Attr::Addr(lo)) && addr
            == lo + slide) && forall|uj: int, j: int|
            uj < ui || (uj == ui && j < i) ==> !(#[trigger] builder_at(units, uj, j, prefix, v))
}

pub open spec fn builder_at(units: Seq<Unit>, ui: int, i: int, prefix: Seq<char>, v: Option<Seq<char>>) -> bool {
    0 <= ui < units.len() && is_builder(units[ui].dies(), i, prefix, v)
}

// ---------------------------------------------------------------------------
// The variants of an enum.
// ---------------------------------------------------------------------------

/// Whether a variant holds nothing: its member's type has no member `__0`.
#[verifier::opaque]
pub open spec fn is_empty_variant(es: Seq<Entry>, v: int) -> bool {
    es[v].tag == 0x19 && exists|pm: int| #[trigger]
        is_first(es, v, pm, 0x0d, None) && (type_of(es, es[pm].offset) matches Some(p) && (stripped(es, p) matches Ok(s)
            && index_of(es, s) is Some && forall|b: int|
            !(#[trigger] is_such_child(es, spot(es, s), b, 0x0d, Some("__0"@)))))
}

/// Whether a variant holds a value: its member's type has a member `__0`, of some type.
pub open spec fn is_full_variant(es: Seq<Entry>, v: int, pm: int, f0: int, t: usize) -> bool {
    &&& es[v].tag == 0x19
    &&& is_first(es, v, pm, 0x0d, None)
    &&& type_of(es, es[pm].offset) matches Some(p)
    &&& stripped(es, p) matches Ok(s)
    &&& index_of(es, s) is Some
    &&& is_first(es, spot(es, s), f0, 0x0d, Some("__0"@))
    &&& type_of(es, es[f0].offset) == Some(t)
}

/// Whether a variant holds a value.
#[verifier::opaque]
pub open spec fn is_full(es: Seq<Entry>, v: int) -> bool {
    exists|pm: int, f0: int, t: usize| is_full_variant(es, v, pm, f0, t)
}

/// Whether the last variant that holds nothing has a discriminant.
pub open spec fn is_none(es: Seq<Entry>, vp: int, v: int, discr: Option<u64>) -> bool {
    &&& is_child(es, vp, v)
    &&& is_empty_variant(es, v)
    &&& es[v].discr_value == discr
    &&& forall|b: int| b > v && #[trigger] is_child(es, vp, b) ==> !is_empty_variant(es, b)
}

/// Whether a variant is the last that holds a value.
pub open spec fn is_some(es: Seq<Entry>, vp: int, v: int, pm: int, f0: int, t: usize) -> bool {
    &&& is_child(es, vp, v)
    &&& is_full_variant(es, v, pm, f0, t)
    &&& forall|b: int| b > v && #[trigger] is_child(es, vp, b) ==> !is_full(es, b)
}

/// Whether a discriminant takes so many bytes.
pub open spec fn takes(es: Seq<Entry>, dm: usize, size: u8) -> bool {
    match type_of(es, dm) {
        None => size == 8,
        Some(t) => stripped(es, t) matches Ok(s) && size == given(es, s, 0x0b, 8) as u8,
    }
}

// ---------------------------------------------------------------------------
// Layouts.
// ---------------------------------------------------------------------------

/// Whether a layout is that of a base type.
pub open spec fn is_base(es: Seq<Entry>, off: usize, ty: TyV) -> bool {
    let name = title(es, off);
    let size = given(es, off, 0x0b, 0) as u8;
    let enc = match attr_of(es[spot(es, off)], 0x3e) {
        Some(Attr::Encoding(n)) => n,
        _ => 0,
    };
    match ty {
        TyV::Unit => name == "()"@,
        TyV::Bool => name != "()"@ && enc == 2,
        TyV::F32 => name != "()"@ && enc == 4 && size == 4,
        TyV::F64 => name != "()"@ && enc == 4 && size != 4,
        TyV::Char => name != "()"@ && (enc == 0x10 || (enc == 8 && name == "char"@)),
        TyV::I(n) => name != "()"@ && (enc == 5 || enc == 6) && n == size,
        TyV::U(n) => name != "()"@ && (enc == 7 || (enc == 8 && name != "char"@)) && n == size,
        TyV::Unknown(s) => name != "()"@ && s == name && !(enc == 2 || enc == 0x10 || (4 <= enc <= 8)),
        _ => false,
    }
}

/// Whether a layout is that of the type at a site.
pub open spec fn describes(units: Seq<Unit>, slide: u64, site: Site, ty: TyV) -> bool
    decreases ty, 3nat,
{
    exists|at: Site, n: nat| #[trigger] leads(units, site, at, n) && stands(units, slide, at, ty)
}

/// Whether a layout is that of the type which is read from a site, tied off where it
/// refers to itself.
pub open spec fn stands(units: Seq<Unit>, slide: u64, at: Site, ty: TyV) -> bool
    decreases ty, 2nat,
{
    match ty {
        TyV::Ref(s) => s == at,
        TyV::Rec { site, body } => site == at && shaped(units, slide, at, *body),
        _ => shaped(units, slide, at, ty),
    }
}

/// Whether a layout is what the entry at a site gives, by what it is.
pub open spec fn shaped(units: Seq<Unit>, slide: u64, at: Site, ty: TyV) -> bool
    decreases ty, 1nat,
{
    let es = units[at.unit as int].dies();
    let i = spot(es, at.off);
    let name = title(es, at.off);
    if es[i].tag == 0x24 {
        is_base(es, at.off, ty)
    } else if es[i].tag == 0x0f {
        is_pointer(units, slide, at, ty)
    } else if es[i].tag == 0x13 {
        if name == "String"@ {
            ty matches TyV::Str(seq) && has_words(units, at, seq)
        } else if name == "&str"@ {
            ty matches TyV::StrRef { ptr_off, len_off } && last_lies(es, i, "data_ptr"@, ptr_off) && last_lies(
                es,
                i,
                "length"@,
                len_off,
            )
        } else if crate::text::begins(name, "Vec<"@) {
            is_vec(units, slide, at, ty)
        } else if crate::text::begins(name, "BTreeMap<"@) {
            is_map(units, slide, at, ty)
        } else if exists|c: int| #[trigger] is_such_child(es, i, c, 0x33, None) {
            is_option(units, slide, at, ty)
        } else {
            is_record(units, slide, at, ty)
        }
    } else if es[i].tag == 0x04 {
        ty == TyV::Unknown("enum "@ + name)
    } else {
        ty == TyV::Unknown(name)
    }
}

/// Whether a layout is that of a pointer, with the size and the alignment of what it
/// points to.
pub open spec fn is_pointer(units: Seq<Unit>, slide: u64, at: Site, ty: TyV) -> bool
    decreases ty, 0nat,
{
    let es = units[at.unit as int].dies();
    match type_of(es, at.off) {
        None => ty == TyV::Unknown("*"@ + title(es, at.off)),
        Some(t) => match ty {
            TyV::Boxed { inner, size, align } => {
                &&& describes(units, slide, (Site { unit: at.unit, off: t }), *inner)
                &&& stripped(es, t) matches Ok(to)
                &&& size == given(es, to, 0x0b, 0)
                &&& is_aligned(es, to, size, align)
            },
            _ => false,
        },
    }
}

/// Whether a layout is that of a `Vec`, with the size and the alignment of its items.
pub open spec fn is_vec(units: Seq<Unit>, slide: u64, at: Site, ty: TyV) -> bool
    decreases ty, 0nat,
{
    let es = units[at.unit as int].dies();
    match ty {
        TyV::Vec { elem, elem_size, elem_align, seq } => exists|t: usize| #[trigger]
            is_parameter(es, at.off, None, t) && describes(units, slide, (Site { unit: at.unit, off: t }), *elem) && (
            stripped(es, t) matches Ok(to) && elem_size == given(es, to, 0x0b, 1) && is_aligned(
                es,
                to,
                elem_size,
                elem_align,
            )) && has_words(units, at, seq),
        _ => false,
    }
}

/// Whether a layout is that of a `BTreeMap`, with the functions that make one and that
/// fill one of its values.
pub open spec fn is_map(units: Seq<Unit>, slide: u64, at: Site, ty: TyV) -> bool
    decreases ty, 0nat,
{
    let es = units[at.unit as int].dies();
    match ty {
        TyV::BTreeMap { key, key_size, val, val_size, new_at, insert } => exists|k: usize, v: usize|
            {
                &&& #[trigger] is_parameter(es, at.off, Some("K"@), k)
                &&& #[trigger] is_parameter(es, at.off, Some("V"@), v)
                &&& describes(units, slide, (Site { unit: at.unit, off: k }), *key)
                &&& describes(units, slide, (Site { unit: at.unit, off: v }), *val)
                &&& stripped(es, k) matches Ok(ks) && key_size == given(es, ks, 0x0b, 24)
                &&& stripped(es, v) matches Ok(vs) && val_size == given(es, vs, 0x0b, 1)
                &&& built_at(units, slide, "map_new_at"@, None, new_at)
                &&& built_at(units, slide, "map_insert"@, Some(title(es, v)), insert)
            },
        _ => false,
    }
}

/// Whether a layout is that of an enum with a variant part: an `Option`, where there is
/// a variant that holds nothing and has a discriminant, and one that holds a value.
pub open spec fn is_option(units: Seq<Unit>, slide: u64, at: Site, ty: TyV) -> bool
    decreases ty, 0nat,
{
    let es = units[at.unit as int].dies();
    let i = spot(es, at.off);
    exists|vp: int|
        {
            &&& #[trigger] is_first(es, i, vp, 0x33, None)
            &&& match ty {
                TyV::Opt { disc_off, disc_size, none_discr, some_discr, payload_off, size, inner } => {
                    &&& attr_of(es[vp], 0x15) matches Some(Attr::UnitRef(dm)) && disc_off == lies(es, dm) && takes(
                        es,
                        dm,
                        disc_size,
                    )
                    &&& exists|v: int, d: u64| #[trigger] is_none(es, vp, v, Some(d)) && none_discr == d
                    &&& exists|v: int, pm: int, f0: int, t: usize|
                        {
                            &&& #[trigger] is_some(es, vp, v, pm, f0, t)
                            &&& payload_off == lies(es, es[pm].offset) + lies(es, es[f0].offset)
                            &&& match es[v].discr_value {
                                Some(d) => some_discr == Some(d as u128),
                                None => some_discr is None,
                            }
                            &&& describes(units, slide, (Site { unit: at.unit, off: t }), *inner)
                        }
                    &&& size == given(es, at.off, 0x0b, 0)
                },
                TyV::Unknown(s) => {
                    &&& s == "enum "@ + title(es, at.off)
                    &&& {
                        ||| !(attr_of(es[vp], 0x15) matches Some(Attr::UnitRef(_)))
                        ||| forall|v: int, d: u64| !(#[trigger] is_none(es, vp, v, Some(d)))
                        ||| forall|v: int| #[trigger] is_child(es, vp, v) ==> !is_full(es, v)
                    }
                },
                _ => false,
            }
        }
}

/// Whether positions are those of the members of a type, each once.
pub open spec fn are_members(es: Seq<Entry>, p: int, ms: Seq<int>) -> bool {
    &&& ms.no_duplicates()
    &&& forall|j: int| 0 <= j < ms.len() ==> is_such_child(es, p, #[trigger] ms[j], 0x0d, None)
    &&& forall|m: int| #[trigger] is_such_child(es, p, m, 0x0d, None) ==> ms.contains(m)
}

/// Whether fields are those of a tuple.
pub open spec fn is_tuple_like(fields: Seq<FieldV>) -> bool {
    fields.len() > 0 && forall|k: int| 0 <= k < fields.len() ==> crate::tuple::is_positional((#[trigger] fields[k]).name)
}

/// Whether a layout is that of a struct or a tuple: its fields are the members, where
/// they lie; a struct's in their order, a tuple's by number.
pub open spec fn is_record(units: Seq<Unit>, slide: u64, at: Site, ty: TyV) -> bool
    decreases ty, 0nat,
{
    let es = units[at.unit as int].dies();
    let i = spot(es, at.off);
    match ty {
        TyV::Struct { name, fields } => name == title(es, at.off) && !is_tuple_like(fields) && exists|ms: Seq<int>|
            #[trigger] are_members(es, i, ms) && crate::locals::in_order(ms) && ms.len() == fields.len() && have_fields(
                units,
                slide,
                at.unit,
                ms,
                fields,
                fields.len(),
            ),
        TyV::Tuple { fields } => is_tuple_like(fields) && crate::tuple::ascend(fields) && exists|ms: Seq<int>|
            #[trigger] are_members(es, i, ms) && ms.len() == fields.len() && have_fields(
                units,
                slide,
                at.unit,
                ms,
                fields,
                fields.len(),
            ),
        _ => false,
    }
}

/// Whether the first fields are what members give.
pub open spec fn have_fields(
    units: Seq<Unit>,
    slide: u64,
    ui: usize,
    ms: Seq<int>,
    fields: Seq<FieldV>,
    n: nat,
) -> bool
    decreases fields, n,
{
    let es = units[ui as int].dies();
    n > 0 && n <= fields.len() ==> {
        let m = es[ms[n - 1]].offset;
        &&& fields[n - 1].name == title(es, m)
        &&& fields[n - 1].offset == lies(es, m)
        &&& match type_of(es, m) {
            None => fields[n - 1].ty == TyV::Unknown("?"@),
            Some(t) => describes(units, slide, (Site { unit: ui, off: t }), fields[n - 1].ty),
        }
        &&& have_fields(units, slide, ui, ms, fields, (n - 1) as nat)
    }
}

// ---------------------------------------------------------------------------
// What is read is what entries give.
// ---------------------------------------------------------------------------

proof fn lemma_first(unit: Unit, off: usize, tag: u16, name: Option<Seq<char>>)
    requires
        ascending(unit.dies()),
        index_of(unit.dies(), off) is Some,
    ensures
        crate::die::child_where(unit, off, tag, name) matches Ok(Some(c)) ==> index_of(unit.dies(), c) is Some
            && unit.dies()[spot(unit.dies(), c)].offset == c && is_first(
            unit.dies(),
            spot(unit.dies(), off),
            spot(unit.dies(), c),
            tag,
            name,
        ),
        crate::die::child_where(unit, off, tag, name) matches Ok(None) ==> forall|b: int|
            !(#[trigger] is_such_child(unit.dies(), spot(unit.dies(), off), b, tag, name)),
{
    crate::tree::law_child_found_is_first(unit, off, tag, name);
}

proof fn lemma_parameter(unit: Unit, off: usize, name: Option<Seq<char>>)
    requires
        ascending(unit.dies()),
        index_of(unit.dies(), off) is Some,
    ensures
        crate::die::param_of(unit, off, name) matches Ok(Some(t)) ==> is_parameter(unit.dies(), off, name, t),
{
    lemma_first(unit, off, 0x2f, name);
    if let Ok(Some(c)) = crate::die::child_where(unit, off, 0x2f, name) {
        assert(is_first(unit.dies(), spot(unit.dies(), off), spot(unit.dies(), c), 0x2f, name));
    }
}

proof fn lemma_aligned(unit: Unit, off: usize, size: u64)
    ensures
        align_at(unit, off, size) matches Ok(a) ==> is_aligned(unit.dies(), off, size, a),
{
    crate::arith::law_least_pow2_is_least(
        if size == 0 {
            1
        } else {
            size
        },
    );
}

/// Whether a word is the one that was known before, or one of those that lie somewhere.
spec fn is_word(units: Seq<Unit>, site: Site, base: int, w: Word, before: Option<usize>, after: Option<usize>, d: nat) -> bool {
    after == before || (after matches Some(o) && has_word(units, site, base, w, o as int, d))
}

/// Whether a member has a word.
spec fn member_has(units: Seq<Unit>, ui: usize, m: usize, base: int, w: Word, off: int, d: nat) -> bool {
    let es = units[ui as int].dies();
    crate::die::tag_of(es, m) == Some(0x0du16) && {
        ||| names_word(w, name_of(es, m)) && off == base + lies(es, m)
        ||| d > 0 && (type_of(es, m) matches Some(t) && has_word(
            units,
            Site { unit: ui, off: t },
            base + lies(es, m),
            w,
            off,
            (d - 1) as nat,
        ))
    }
}

spec fn some_has(
    units: Seq<Unit>,
    ui: usize,
    kids: Seq<usize>,
    k: int,
    base: int,
    w: Word,
    before: Option<usize>,
    after: Option<usize>,
    d: nat,
) -> bool {
    after == before || (after matches Some(o) && exists|j: int|
        k <= j < kids.len() && member_has(units, ui, #[trigger] kids[j], base, w, o as int, d))
}

proof fn lemma_some_later(
    units: Seq<Unit>,
    ui: usize,
    kids: Seq<usize>,
    k: int,
    base: int,
    w: Word,
    before: Option<usize>,
    after: Option<usize>,
    d: nat,
)
    requires
        some_has(units, ui, kids, k + 1, base, w, before, after, d),
    ensures
        some_has(units, ui, kids, k, base, w, before, after, d),
{
    if after != before {
        let o = after->0;
        let j = choose|j: int|
            k + 1 <= j < kids.len() && member_has(units, ui, #[trigger] kids[j], base, w, o as int, d);
        assert(member_has(units, ui, kids[j], base, w, o as int, d));
    }
}

proof fn lemma_words_in(units: Seq<Unit>, site: Site, base: usize, w: Words, depth: nat)
    requires
        all_ascending(units),
        depth <= MAX_WORD_DEPTH,
    ensures
        words_in(units, site, base, w, depth) matches Ok(r) ==> {
            let d = (MAX_WORD_DEPTH - depth) as nat;
            &&& is_word(units, site, base as int, Word::Pointer, w.ptr, r.ptr, d)
            &&& is_word(units, site, base as int, Word::Capacity, w.cap, r.cap, d)
            &&& is_word(units, site, base as int, Word::Length, w.len, r.len, d)
        },
    decreases MAX_WORD_DEPTH + 1 - depth, 1nat, 0nat,
{
    if let Ok(r) = words_in(units, site, base, w, depth) {
        let d = (MAX_WORD_DEPTH - depth) as nat;
        let off = stripped(units[site.unit as int].dies(), site.off)->Ok_0;
        let def = crate::index::site_of(units, Site { unit: site.unit, off })->Ok_0;
        let unit = units[def.unit as int];
        let es = unit.dies();
        let i = spot(es, def.off);
        let t = crate::die::tag_of(es, def.off)->0;
        if t == 0x0f {
            if r.ptr != w.ptr {
                assert(has_word(units, site, base as int, Word::Pointer, base as int, d));
            }
        } else if t == 0x13 || t == 0x17 {
            if let Ok(kids) = crate::die::children(unit, def.off) {
                lemma_words_among(units, def.unit, kids, 0, base, w, depth);
                crate::tree::law_children_are_what_stands_under(unit, def.off);
                lemma_words_of_members(units, site, def, kids, base as int, Word::Pointer, w.ptr, r.ptr, d);
                lemma_words_of_members(units, site, def, kids, base as int, Word::Capacity, w.cap, r.cap, d);
                lemma_words_of_members(units, site, def, kids, base as int, Word::Length, w.len, r.len, d);
            }
        }
    }
}

proof fn lemma_words_of_members(
    units: Seq<Unit>,
    site: Site,
    def: Site,
    kids: Seq<usize>,
    base: int,
    w: Word,
    before: Option<usize>,
    after: Option<usize>,
    d: nat,
)
    requires
        all_ascending(units),
        site.unit < units.len(),
        stripped(units[site.unit as int].dies(), site.off) matches Ok(o) && crate::index::site_of(
            units,
            (Site { unit: site.unit, off: o }),
        ) == Ok::<Site, Fault>(def),
        def.unit < units.len(),
        index_of(units[def.unit as int].dies(), def.off) is Some,
        ({
            let e = units[def.unit as int].dies()[spot(units[def.unit as int].dies(), def.off)];
            e.tag == 0x13 || e.tag == 0x17
        }),
        crate::die::children(units[def.unit as int], def.off) == Ok::<Seq<usize>, Fault>(kids),
        some_has(units, def.unit, kids, 0, base, w, before, after, d),
    ensures
        is_word(units, site, base, w, before, after, d),
{
    let unit = units[def.unit as int];
    let es = unit.dies();
    crate::tree::law_children_are_what_stands_under(unit, def.off);
    if after != before {
        let o = after->0;
        let j = choose|j: int|
            0 <= j < kids.len() && member_has(units, def.unit, #[trigger] kids[j], base, w, o as int, d);
        let m = spot(es, kids[j]);
        assert(es[m].offset == kids[j]);
        assert(is_such_child(es, spot(es, def.off), m, 0x0d, None));
        assert(has_word(units, site, base, w, o as int, d));
    }
}

proof fn lemma_words_among(units: Seq<Unit>, ui: usize, kids: Seq<usize>, k: nat, base: usize, w: Words, depth: nat)
    requires
        all_ascending(units),
        depth <= MAX_WORD_DEPTH,
        ui < units.len(),
    ensures
        words_among(units, ui, kids, k, base, w, depth) matches Ok(r) ==> {
            let d = (MAX_WORD_DEPTH - depth) as nat;
            &&& some_has(units, ui, kids, k as int, base as int, Word::Pointer, w.ptr, r.ptr, d)
            &&& some_has(units, ui, kids, k as int, base as int, Word::Capacity, w.cap, r.cap, d)
            &&& some_has(units, ui, kids, k as int, base as int, Word::Length, w.len, r.len, d)
        },
    decreases MAX_WORD_DEPTH + 1 - depth, 0nat, kids.len() - k,
{
    let d = (MAX_WORD_DEPTH - depth) as nat;
    if k < kids.len() {
        if let Ok(r) = words_among(units, ui, kids, k, base, w, depth) {
            let unit = units[ui as int];
            let es = unit.dies();
            let m = kids[k as int];
            let b = base as int;
            let kk = k as int;
            if crate::die::tag_of(es, m) != Some(0x0du16) {
                lemma_words_among(units, ui, kids, k + 1, base, w, depth);
                lemma_some_later(units, ui, kids, kk, b, Word::Pointer, w.ptr, r.ptr, d);
                lemma_some_later(units, ui, kids, kk, b, Word::Capacity, w.cap, r.cap, d);
                lemma_some_later(units, ui, kids, kk, b, Word::Length, w.len, r.len, d);
            } else {
                let abs = (base + lies(es, m)) as usize;
                let name = name_of(es, m);
                let then = if names_word(Word::Capacity, name) && w.cap is None {
                    Words { cap: Some(abs), ..w }
                } else if names_word(Word::Length, name) && w.len is None {
                    Words { len: Some(abs), ..w }
                } else {
                    match type_of(es, m) {
                        None => w,
                        Some(t) => words_in(units, Site { unit: ui, off: t }, abs, w, depth + 1)->Ok_0,
                    }
                };
                if let Some(t) = type_of(es, m) {
                    if depth < MAX_WORD_DEPTH {
                        lemma_words_in(units, Site { unit: ui, off: t }, abs, w, depth + 1);
                    }
                }
                assert(words_among(units, ui, kids, k + 1, base, then, depth) == Ok::<Words, Fault>(r));
                lemma_words_among(units, ui, kids, k + 1, base, then, depth);
                lemma_some_later(units, ui, kids, kk, b, Word::Pointer, then.ptr, r.ptr, d);
                lemma_some_later(units, ui, kids, kk, b, Word::Capacity, then.cap, r.cap, d);
                lemma_some_later(units, ui, kids, kk, b, Word::Length, then.len, r.len, d);
                if then.ptr != w.ptr {
                    assert(member_has(units, ui, kids[kk], b, Word::Pointer, then.ptr->0 as int, d));
                }
                if then.cap != w.cap {
                    assert(member_has(units, ui, kids[kk], b, Word::Capacity, then.cap->0 as int, d));
                }
                if then.len != w.len {
                    assert(member_has(units, ui, kids[kk], b, Word::Length, then.len->0 as int, d));
                }
            }
        }
    }
}

proof fn lemma_has_words(units: Seq<Unit>, at: Site)
    requires
        all_ascending(units),
    ensures
        crate::classify::seq_layout_at(units, at) matches Ok(seq) ==> has_words(units, at, seq),
{
    lemma_words_in(units, at, 0, Words { ptr: None, cap: None, len: None }, 0);
}

proof fn lemma_last_member(unit: Unit, off: usize, kids: Seq<usize>, name: Seq<char>, k: nat, found: usize)
    requires
        ascending(unit.dies()),
        index_of(unit.dies(), off) is Some,
        crate::die::children(unit, off) == Ok::<Seq<usize>, Fault>(kids),
        k <= kids.len(),
        last_up_to(unit.dies(), kids, k as int, name, found),
    ensures
        last_lies(unit.dies(), spot(unit.dies(), off), name, last_member(unit, kids, name, k, found)),
    decreases kids.len() - k,
{
    let es = unit.dies();
    let p = spot(es, off);
    crate::tree::law_children_are_what_stands_under(unit, off);
    if k < kids.len() {
        let is = is_named_member(es, kids[k as int], name);
        let next = if is {
            lies(es, kids[k as int])
        } else {
            found
        };
        assert(last_up_to(es, kids, k as int + 1, name, next)) by {
            if is {
                assert(is_named_member(es, kids[k as int], name));
            } else if exists|j: int|
                0 <= j < k && is_named_member(es, #[trigger] kids[j], name) && found == lies(es, kids[j]) && forall|i: int|
                    j < i < k ==> !is_named_member(es, #[trigger] kids[i], name) {
                let j = choose|j: int|
                    0 <= j < k && is_named_member(es, #[trigger] kids[j], name) && found == lies(es, kids[j])
                        && forall|i: int| j < i < k ==> !is_named_member(es, #[trigger] kids[i], name);
                assert(is_named_member(es, kids[j], name));
            }
        }
        lemma_last_member(unit, off, kids, name, k + 1, next);
    } else {
        assert forall|b: int| #[trigger] is_such_child(es, p, b, 0x0d, Some(name)) implies exists|j: int|
            0 <= j < kids.len() && #[trigger] kids[j] == es[b].offset && spot(es, kids[j]) == b && is_named_member(
                es,
                kids[j],
                name,
            ) by {
            assert(kids.contains(es[b].offset));
            let j = choose|j: int| 0 <= j < kids.len() && kids[j] == es[b].offset;
            crate::die::lemma_index_of(es, es[b].offset, b);
            assert(kids[j] == es[b].offset);
        }
        if exists|j: int|
            0 <= j < k && is_named_member(es, #[trigger] kids[j], name) && found == lies(es, kids[j]) && forall|i: int|
                j < i < k ==> !is_named_member(es, #[trigger] kids[i], name) {
            let j = choose|j: int|
                0 <= j < k && is_named_member(es, #[trigger] kids[j], name) && found == lies(es, kids[j])
                    && forall|i: int| j < i < k ==> !is_named_member(es, #[trigger] kids[i], name);
            let m = spot(es, kids[j]);
            assert(es[m].offset == kids[j]);
            assert(is_such_child(es, p, m, 0x0d, Some(name)));
            assert forall|b: int| b > m implies !(#[trigger] is_such_child(es, p, b, 0x0d, Some(name))) by {
                if is_such_child(es, p, b, 0x0d, Some(name)) {
                    let i = choose|i: int|
                        0 <= i < kids.len() && #[trigger] kids[i] == es[b].offset && spot(es, kids[i]) == b
                            && is_named_member(es, kids[i], name);
                    if i < j {
                        assert(spot(es, kids[i]) < spot(es, kids[j]));
                    }
                }
            }
        }
    }
}

spec fn is_named_member(es: Seq<Entry>, m: usize, name: Seq<char>) -> bool {
    crate::die::tag_of(es, m) == Some(0x0du16) && name_of(es, m) == Some(name)
}

/// Whether an offset is that of the last member of a name among the first children.
spec fn last_up_to(es: Seq<Entry>, kids: Seq<usize>, k: int, name: Seq<char>, found: usize) -> bool {
    ||| exists|j: int|
        0 <= j < k && is_named_member(es, #[trigger] kids[j], name) && found == lies(es, kids[j]) && forall|i: int|
            j < i < k ==> !is_named_member(es, #[trigger] kids[i], name)
    ||| found == 0 && forall|j: int| 0 <= j < k ==> !is_named_member(es, #[trigger] kids[j], name)
}

/// A type to look for, where one is.
pub open spec fn wanted(v_name: Seq<char>, match_v: bool) -> Option<Seq<char>> {
    if match_v {
        Some(v_name)
    } else {
        None
    }
}

proof fn lemma_open_angle(s: Seq<char>, k: nat)
    requires
        k <= s.len(),
    ensures
        k <= crate::tramp::open_angle(s, k) <= s.len(),
        forall|j: int| k <= j < crate::tramp::open_angle(s, k) ==> s[j] != '<',
        crate::tramp::open_angle(s, k) < s.len() ==> s[crate::tramp::open_angle(s, k) as int] == '<',
    decreases s.len() - k,
{
    if k < s.len() && s[k as int] != '<' {
        lemma_open_angle(s, k + 1);
    }
}

proof fn lemma_builds(name: Seq<char>, prefix: Seq<char>, v_name: Seq<char>, match_v: bool)
    ensures
        builds(name, prefix, wanted(v_name, match_v)) <==> crate::tramp::is_trampoline(name, prefix, v_name, match_v)
            == Ok::<bool, Fault>(true),
{
    lemma_open_angle(name, 0);
    let lt = crate::tramp::open_angle(name, 0) as int;
    if match_v && lt < name.len() - 1 {
        let inner = name.subrange(lt + 1, name.len() - 1);
        assert(name[lt] == '<');
        assert(is_bracketed(name, inner));
        assert forall|other: Seq<char>| #[trigger] is_bracketed(name, other) implies other == inner by {
            let l = choose|l: int|
                0 <= l < name.len() - 1 && #[trigger] name[l] == '<' && (forall|j: int|
                    0 <= j < l ==> #[trigger] name[j] != '<') && other == name.subrange(l + 1, name.len() - 1);
            if l < lt {
                assert(name[l] != '<');
            }
            if lt < l {
                assert(name[lt] != '<');
            }
        }
    } else if match_v {
        assert forall|other: Seq<char>| !(#[trigger] is_bracketed(name, other)) by {
            if is_bracketed(name, other) {
                let l = choose|l: int|
                    0 <= l < name.len() - 1 && #[trigger] name[l] == '<' && (forall|j: int|
                        0 <= j < l ==> #[trigger] name[j] != '<') && other == name.subrange(l + 1, name.len() - 1);
                assert(name[l] != '<');
            }
        }
    }
}

proof fn lemma_built_in(unit: Unit, slide: u64, prefix: Seq<char>, v_name: Seq<char>, match_v: bool, k: nat)
    ensures
        ({
            let es = unit.dies();
            let v = wanted(v_name, match_v);
            match crate::tramp::tramp_in(unit, slide, prefix, v_name, match_v, k) {
                Ok(Some(a)) => exists|i: int|
                    k <= i && #[trigger] is_builder(es, i, prefix, v) && (attr_of(es[i], 0x11) matches Some(
                        Attr::Addr(lo),
                    ) && a == lo + slide) && forall|j: int| k <= j < i ==> !(#[trigger] is_builder(es, j, prefix, v)),
                Ok(None) => forall|j: int| k <= j ==> !(#[trigger] is_builder(es, j, prefix, v)),
                Err(_) => true,
            }
        }),
    decreases unit.dies().len() - k,
{
    let es = unit.dies();
    let v = wanted(v_name, match_v);
    if k < es.len() {
        let e = es[k as int];
        lemma_builds(label(unit, e.offset), prefix, v_name, match_v);
        lemma_built_in(unit, slide, prefix, v_name, match_v, k + 1);
        if let Ok(Some(a)) = crate::tramp::tramp_in(unit, slide, prefix, v_name, match_v, k) {
            if is_builder(es, k as int, prefix, v) {
                assert(a == crate::tramp::low_pc(e)->0 + slide);
            } else {
                let i = choose|i: int|
                    k + 1 <= i && #[trigger] is_builder(es, i, prefix, v) && (attr_of(es[i], 0x11) matches Some(
                        Attr::Addr(lo),
                    ) && a == lo + slide) && forall|j: int|
                        k + 1 <= j < i ==> !(#[trigger] is_builder(es, j, prefix, v));
                assert(is_builder(es, i, prefix, v));
            }
        }
    }
}

proof fn lemma_built_from(
    units: Seq<Unit>,
    slide: u64,
    prefix: Seq<char>,
    v_name: Seq<char>,
    match_v: bool,
    ui: nat,
)
    requires
        forall|uj: int, j: int| uj < ui ==> !(#[trigger] builder_at(units, uj, j, prefix, wanted(v_name, match_v))),
    ensures
        crate::tramp::tramp_from(units, slide, prefix, v_name, match_v, ui) matches Ok(Some(a)) ==> built_at(
            units,
            slide,
            prefix,
            wanted(v_name, match_v),
            a,
        ),
    decreases units.len() - ui,
{
    let v = wanted(v_name, match_v);
    if ui < units.len() {
        let es = units[ui as int].dies();
        lemma_built_in(units[ui as int], slide, prefix, v_name, match_v, 0);
        match crate::tramp::tramp_in(units[ui as int], slide, prefix, v_name, match_v, 0) {
            Err(f) => {},
            Ok(Some(a)) => {
                let i = choose|i: int|
                    0 <= i && #[trigger] is_builder(es, i, prefix, v) && (attr_of(es[i], 0x11) matches Some(
                        Attr::Addr(lo),
                    ) && a == lo + slide) && forall|j: int| 0 <= j < i ==> !(#[trigger] is_builder(es, j, prefix, v));
                assert(builder_at(units, ui as int, i, prefix, v));
            },
            Ok(None) => {
                assert forall|uj: int, j: int| uj < ui + 1 implies !(#[trigger] builder_at(units, uj, j, prefix, v)) by {
                    if uj == ui {
                        assert(!is_builder(es, j, prefix, v));
                    }
                }
                lemma_built_from(units, slide, prefix, v_name, match_v, ui + 1);
            },
        }
    }
}

/// A function that builds maps is found where there is one: at the run-time address of
/// the first subprogram with code whose name says so.
pub proof fn law_builder_is_found(units: Seq<Unit>, slide: u64, prefix: Seq<char>, v_name: Seq<char>, match_v: bool)
    ensures
        trampoline(units, slide, prefix, v_name, match_v) matches Ok(a) ==> built_at(
            units,
            slide,
            prefix,
            wanted(v_name, match_v),
            a,
        ),
{
    lemma_built_from(units, slide, prefix, v_name, match_v, 0);
}

/// Whether a field is what a member gives.
pub open spec fn is_field(units: Seq<Unit>, slide: u64, ui: usize, at: int, f: FieldV) -> bool {
    let es = units[ui as int].dies();
    let m = es[at].offset;
    &&& f.name == title(es, m)
    &&& f.offset == lies(es, m)
    &&& match type_of(es, m) {
        None => f.ty == TyV::Unknown("?"@),
        Some(t) => describes(units, slide, (Site { unit: ui, off: t }), f.ty),
    }
}

proof fn lemma_have_fields(units: Seq<Unit>, slide: u64, ui: usize, ms: Seq<int>, fields: Seq<FieldV>, n: nat)
    requires
        n <= fields.len(),
        ms.len() == fields.len(),
    ensures
        have_fields(units, slide, ui, ms, fields, n) <==> forall|j: int|
            0 <= j < n ==> is_field(units, slide, ui, #[trigger] ms[j], fields[j]),
    decreases n,
{
    if n > 0 {
        lemma_have_fields(units, slide, ui, ms, fields, (n - 1) as nat);
    }
}

/// Putting a field into its place puts its member there too.
proof fn lemma_placed_members(
    units: Seq<Unit>,
    slide: u64,
    ui: usize,
    fields: Seq<FieldV>,
    ms: Seq<int>,
    f: FieldV,
    m: int,
) -> (r: Seq<int>)
    requires
        ms.len() == fields.len(),
        ms.no_duplicates(),
        !ms.contains(m),
        is_field(units, slide, ui, m, f),
        forall|j: int| 0 <= j < ms.len() ==> is_field(units, slide, ui, #[trigger] ms[j], fields[j]),
    ensures
        r.len() == crate::tuple::placed(fields, f).len(),
        r.len() == ms.len() + 1,
        r.no_duplicates(),
        forall|x: int| #[trigger] r.contains(x) <==> ms.contains(x) || x == m,
        forall|j: int| 0 <= j < r.len() ==> is_field(units, slide, ui, #[trigger] r[j], crate::tuple::placed(fields, f)[j]),
    decreases fields.len(),
{
    if fields.len() == 0 || crate::tuple::position(fields.last().name) <= crate::tuple::position(f.name) {
        let r = ms.push(m);
        assert forall|x: int| #[trigger] r.contains(x) <==> ms.contains(x) || x == m by {
            if ms.contains(x) {
                let j = choose|j: int| 0 <= j < ms.len() && ms[j] == x;
                assert(r[j] == x);
            }
            assert(r[ms.len() as int] == m);
        }
        assert(r.no_duplicates()) by {
            assert forall|a: int, b: int| 0 <= a < r.len() && 0 <= b < r.len() && a != b implies r[a] != r[b] by {
                if a < ms.len() && b < ms.len() {
                    assert(ms[a] != ms[b]);
                } else if a < ms.len() {
                    assert(ms.contains(ms[a]));
                } else if b < ms.len() {
                    assert(ms.contains(ms[b]));
                }
            }
        }
        r
    } else {
        let less = ms.drop_last();
        let last = ms.last();
        assert forall|x: int| #[trigger] less.contains(x) implies ms.contains(x) by {
            let j = choose|j: int| 0 <= j < less.len() && less[j] == x;
            assert(ms[j] == x);
        }
        assert(less.no_duplicates()) by {
            assert forall|a: int, b: int| 0 <= a < less.len() && 0 <= b < less.len() && a != b implies less[a] != less[b] by {
                assert(ms[a] != ms[b]);
            }
        }
        assert forall|j: int| 0 <= j < less.len() implies is_field(
            units,
            slide,
            ui,
            #[trigger] less[j],
            fields.drop_last()[j],
        ) by {
            assert(less[j] == ms[j]);
        }
        let inner = lemma_placed_members(units, slide, ui, fields.drop_last(), less, f, m);
        let r = inner.push(last);
        assert(is_field(units, slide, ui, ms[ms.len() - 1], fields[fields.len() - 1]));
        assert(!inner.contains(last)) by {
            if less.contains(last) {
                let j = choose|j: int| 0 <= j < less.len() && less[j] == last;
                assert(ms[j] != ms[ms.len() - 1]);
            }
            assert(ms.contains(ms[ms.len() - 1]));
        }
        assert forall|x: int| #[trigger] r.contains(x) <==> ms.contains(x) || x == m by {
            if r.contains(x) {
                let j = choose|j: int| 0 <= j < r.len() && r[j] == x;
                if j < inner.len() {
                    assert(inner.contains(x));
                } else {
                    assert(ms[ms.len() - 1] == x);
                }
            }
            if ms.contains(x) || x == m {
                if x == last {
                    assert(r[inner.len() as int] == x);
                } else {
                    if ms.contains(x) {
                        let j = choose|j: int| 0 <= j < ms.len() && ms[j] == x;
                        assert(less[j] == x);
                    }
                    assert(inner.contains(x));
                    let j = choose|j: int| 0 <= j < inner.len() && inner[j] == x;
                    assert(r[j] == x);
                }
            }
        }
        assert(r.no_duplicates()) by {
            assert forall|a: int, b: int| 0 <= a < r.len() && 0 <= b < r.len() && a != b implies r[a] != r[b] by {
                if a < inner.len() && b < inner.len() {
                    assert(inner[a] != inner[b]);
                } else if a < inner.len() {
                    assert(inner.contains(inner[a]));
                } else if b < inner.len() {
                    assert(inner.contains(inner[b]));
                }
            }
        }
        r
    }
}

proof fn lemma_sorted_members(
    units: Seq<Unit>,
    slide: u64,
    ui: usize,
    fields: Seq<FieldV>,
    ms: Seq<int>,
    n: nat,
) -> (r: Seq<int>)
    requires
        n <= fields.len(),
        ms.len() == fields.len(),
        ms.no_duplicates(),
        forall|j: int| 0 <= j < ms.len() ==> is_field(units, slide, ui, #[trigger] ms[j], fields[j]),
    ensures
        r.len() == crate::tuple::by_position(fields, n).len(),
        r.len() == n,
        r.no_duplicates(),
        forall|x: int| #[trigger] r.contains(x) <==> ms.take(n as int).contains(x),
        forall|j: int|
            0 <= j < r.len() ==> is_field(units, slide, ui, #[trigger] r[j], crate::tuple::by_position(fields, n)[j]),
    decreases n,
{
    if n == 0 {
        Seq::empty()
    } else {
        let before = lemma_sorted_members(units, slide, ui, fields, ms, (n - 1) as nat);
        let m = ms[n - 1];
        let less = ms.take(n - 1);
        let all = ms.take(n as int);
        assert(!before.contains(m)) by {
            if less.contains(m) {
                let j = choose|j: int| 0 <= j < n - 1 && less[j] == m;
                assert(ms[j] != ms[n - 1]);
            }
        }
        let r = lemma_placed_members(
            units,
            slide,
            ui,
            crate::tuple::by_position(fields, (n - 1) as nat),
            before,
            fields[n - 1],
            m,
        );
        assert forall|x: int| #[trigger] r.contains(x) <==> all.contains(x) by {
            if less.contains(x) {
                let j = choose|j: int| 0 <= j < n - 1 && less[j] == x;
                assert(all[j] == x);
            }
            if x == m {
                assert(all[n - 1] == x);
            }
            if all.contains(x) {
                let j = choose|j: int| 0 <= j < n && all[j] == x;
                if j < n - 1 {
                    assert(less[j] == x);
                }
            }
        }
        r
    }
}

// ---------------------------------------------------------------------------
// Layouts are described.
// ---------------------------------------------------------------------------

proof fn lemma_layout(units: Seq<Unit>, slide: u64, site: Site, memo: Seq<Site>, hops: nat)
    requires
        all_ascending(units),
    ensures
        layout_of(units, slide, site, memo, hops) matches Ok(ty) ==> describes(units, slide, site, ty),
    decreases size_of(units) + 1 - memo.len(), hops, 2nat, 0nat,
{
    if let Ok(ty) = layout_of(units, slide, site, memo, hops) {
        let unit = unit_at(units, site.unit)->0;
        let off = stripped(unit.dies(), site.off)->Ok_0;
        let def = crate::index::site_of(units, Site { unit: site.unit, off })->Ok_0;
        let unit = unit_at(units, def.unit)->0;
        let es = unit.dies();
        let name = label(unit, def.off);
        let t = crate::die::tag_of(es, def.off)->0;
        assert(ascending(units[def.unit as int].dies()));
        if crate::classify::is_transparent(name) {
            let inner = crate::die::param_of(unit, def.off, None)->Ok_0->0;
            let next = Site { unit: def.unit, off: inner };
            lemma_parameter(unit, def.off, None);
            lemma_layout(units, slide, next, memo, (hops - 1) as nat);
            let (at, n) = choose|at: Site, n: nat| #[trigger]
                leads(units, next, at, n) && stands(units, slide, at, ty);
            assert(is_parameter(units[def.unit as int].dies(), def.off, None, inner));
            assert(leads(units, site, at, n + 1));
        } else {
            assert(leads(units, site, def, 0));
            if memo.contains(def) {
                assert(stands(units, slide, def, ty));
            } else {
                let inside = memo.push(def);
                if t == 0x24 {
                    lemma_tied_stands(units, slide, def, base_layout(unit, def.off, name));
                } else if t == 0x0f {
                    lemma_boxed(units, slide, def, name, inside);
                    lemma_tied_stands(units, slide, def, boxed_layout(units, slide, def, name, inside)->Ok_0);
                } else if t == 0x13 {
                    lemma_struct(units, slide, def, name, inside);
                    lemma_tied_stands(units, slide, def, struct_layout(units, slide, def, name, inside)->Ok_0);
                } else if t == 0x04 {
                    lemma_tied_stands(units, slide, def, TyV::Unknown("enum "@ + name));
                } else {
                    lemma_tied_stands(units, slide, def, TyV::Unknown(name));
                }
                assert(stands(units, slide, def, ty));
            }
        }
    }
}

proof fn lemma_tied_stands(units: Seq<Unit>, slide: u64, def: Site, body: TyV)
    requires
        shaped(units, slide, def, body),
        !(body is Ref),
        !(body is Rec),
    ensures
        stands(units, slide, def, crate::classify::tied(def, body)),
{
}

proof fn lemma_part(units: Seq<Unit>, slide: u64, ui: usize, off: usize, memo: Seq<Site>)
    requires
        all_ascending(units),
    ensures
        part_layout(units, slide, ui, off, memo) matches Ok(ty) ==> describes(
            units,
            slide,
            (Site { unit: ui, off }),
            ty,
        ),
    decreases size_of(units) + 1 - memo.len(), size_of(units), 3nat, 0nat,
{
    lemma_layout(units, slide, Site { unit: ui, off }, memo, size_of(units));
}

proof fn lemma_boxed(units: Seq<Unit>, slide: u64, def: Site, name: Seq<char>, memo: Seq<Site>)
    requires
        all_ascending(units),
        name == title(units[def.unit as int].dies(), def.off),
    ensures
        boxed_layout(units, slide, def, name, memo) matches Ok(ty) ==> is_pointer(units, slide, def, ty) && !(ty is Ref)
            && !(ty is Rec),
    decreases size_of(units) + 1 - memo.len(), size_of(units) + 1, 0nat, 0nat,
{
    let unit = units[def.unit as int];
    if let Some(pointee) = type_of(unit.dies(), def.off) {
        lemma_part(units, slide, def.unit, pointee, memo);
        if let Ok(to) = stripped(unit.dies(), pointee) {
            lemma_aligned(unit, to, given(unit.dies(), to, 0x0b, 0));
        }
    }
}

#[verifier::spinoff_prover]
#[verifier::rlimit(40)]
proof fn lemma_struct(units: Seq<Unit>, slide: u64, def: Site, name: Seq<char>, memo: Seq<Site>)
    requires
        all_ascending(units),
        def.unit < units.len(),
        index_of(units[def.unit as int].dies(), def.off) is Some,
        units[def.unit as int].dies()[spot(units[def.unit as int].dies(), def.off)].tag == 0x13,
        name == title(units[def.unit as int].dies(), def.off),
    ensures
        struct_layout(units, slide, def, name, memo) matches Ok(ty) ==> shaped(units, slide, def, ty) && !(ty is Ref)
            && !(ty is Rec),
    decreases size_of(units) + 1 - memo.len(), size_of(units) + 1, 2nat, 0nat,
{
    let unit = units[def.unit as int];
    let es = unit.dies();
    let i = spot(es, def.off);
    if name == "String"@ {
        lemma_has_words(units, def);
    } else if name == "&str"@ {
        if let Ok(kids) = crate::die::children(unit, def.off) {
            lemma_last_member(unit, def.off, kids, "data_ptr"@, 0, 0);
            lemma_last_member(unit, def.off, kids, "length"@, 0, 0);
        }
    } else if crate::text::begins(name, "Vec<"@) {
        lemma_vec(units, slide, def, memo);
    } else if crate::text::begins(name, "BTreeMap<"@) {
        lemma_map(units, slide, def, memo);
    } else {
        lemma_first(unit, def.off, 0x33, None);
        match crate::die::child_where(unit, def.off, 0x33, None) {
            Err(f) => {},
            Ok(Some(vp)) => {
                assert(is_such_child(es, i, spot(es, vp), 0x33, None));
                lemma_option(units, slide, def, vp, name, memo);
            },
            Ok(None) => {
                if let Ok(kids) = crate::die::children(unit, def.off) {
                    lemma_record(units, slide, def, kids, name, memo);
                }
            },
        }
    }
}

proof fn lemma_vec(units: Seq<Unit>, slide: u64, def: Site, memo: Seq<Site>)
    requires
        all_ascending(units),
        def.unit < units.len(),
        index_of(units[def.unit as int].dies(), def.off) is Some,
    ensures
        vec_layout(units, slide, def, memo) matches Ok(ty) ==> is_vec(units, slide, def, ty),
    decreases size_of(units) + 1 - memo.len(), size_of(units) + 1, 1nat, 0nat,
{
    let unit = units[def.unit as int];
    let es = unit.dies();
    lemma_parameter(unit, def.off, None);
    lemma_has_words(units, def);
    if let Ok(Some(t)) = crate::die::param_of(unit, def.off, None) {
        lemma_part(units, slide, def.unit, t, memo);
        if let Ok(to) = stripped(es, t) {
            lemma_aligned(unit, to, given(es, to, 0x0b, 1));
        }
        assert(is_parameter(es, def.off, None, t));
    }
}

proof fn lemma_map(units: Seq<Unit>, slide: u64, def: Site, memo: Seq<Site>)
    requires
        all_ascending(units),
        def.unit < units.len(),
        index_of(units[def.unit as int].dies(), def.off) is Some,
    ensures
        map_layout(units, slide, def, memo) matches Ok(ty) ==> is_map(units, slide, def, ty),
    decreases size_of(units) + 1 - memo.len(), size_of(units) + 1, 1nat, 0nat,
{
    let unit = units[def.unit as int];
    let es = unit.dies();
    lemma_parameter(unit, def.off, Some("K"@));
    lemma_parameter(unit, def.off, Some("V"@));
    if let Ok(Some(k)) = crate::die::param_of(unit, def.off, Some("K"@)) {
        if let Ok(Some(v)) = crate::die::param_of(unit, def.off, Some("V"@)) {
            lemma_part(units, slide, def.unit, k, memo);
            lemma_part(units, slide, def.unit, v, memo);
            law_builder_is_found(units, slide, "map_new_at"@, title(es, v), false);
            law_builder_is_found(units, slide, "map_insert"@, title(es, v), true);
            assert(is_parameter(es, def.off, Some("K"@), k));
            assert(is_parameter(es, def.off, Some("V"@), v));
        }
    }
}

proof fn lemma_record(units: Seq<Unit>, slide: u64, def: Site, kids: Seq<usize>, name: Seq<char>, memo: Seq<Site>)
    requires
        all_ascending(units),
        def.unit < units.len(),
        index_of(units[def.unit as int].dies(), def.off) is Some,
        crate::die::children(units[def.unit as int], def.off) == Ok::<Seq<usize>, Fault>(kids),
        name == title(units[def.unit as int].dies(), def.off),
    ensures
        fields_among(units, slide, def.unit, kids, 0, memo) matches Ok(fields) ==> is_record(
            units,
            slide,
            def,
            (if crate::tuple::is_tuple(fields) {
                TyV::Tuple { fields: crate::tuple::by_position(fields, fields.len()) }
            } else {
                TyV::Struct { name, fields }
            }),
        ),
    decreases size_of(units) + 1 - memo.len(), size_of(units) + 1, 1nat, 0nat,
{
    let unit = units[def.unit as int];
    let es = unit.dies();
    crate::tree::law_children_are_what_stands_under(unit, def.off);
    let ms = lemma_fields(units, slide, def.unit, kids, 0, memo);
    if let Ok(fields) = fields_among(units, slide, def.unit, kids, 0, memo) {
        lemma_members(unit, def.off, kids, ms);
        if crate::tuple::is_tuple(fields) {
            lemma_tuple(units, slide, def, ms, fields);
        } else {
            lemma_have_fields(units, slide, def.unit, ms, fields, fields.len());
            assert(are_members(es, spot(es, def.off), ms));
            assert(!is_tuple_like(fields));
        }
    }
}

proof fn lemma_members(unit: Unit, off: usize, kids: Seq<usize>, ms: Seq<int>)
    requires
        ascending(unit.dies()),
        index_of(unit.dies(), off) is Some,
        crate::die::children(unit, off) == Ok::<Seq<usize>, Fault>(kids),
        crate::locals::in_order(ms),
        forall|j: int|
            0 <= j < ms.len() ==> is_kid_member(unit.dies(), kids, 0, #[trigger] ms[j]),
        forall|a: int|
            0 <= a < kids.len() && crate::die::tag_of(unit.dies(), #[trigger] kids[a]) == Some(0x0du16) ==> ms.contains(
                spot(unit.dies(), kids[a]),
            ),
    ensures
        are_members(unit.dies(), spot(unit.dies(), off), ms),
{
    let es = unit.dies();
    let i = spot(es, off);
    lemma_listed(unit, off, kids);
    assert forall|j: int| 0 <= j < ms.len() implies is_such_child(es, i, #[trigger] ms[j], 0x0d, None) by {
        assert(is_kid_member(es, kids, 0, ms[j]));
        let a = choose|a: int|
            0 <= a < kids.len() && spot(es, #[trigger] kids[a]) == ms[j] && crate::die::tag_of(es, kids[a]) == Some(
                0x0du16,
            );
        lemma_listed_order(es, i, kids, a, a);
    }
    assert forall|m: int| #[trigger] is_such_child(es, i, m, 0x0d, None) implies ms.contains(m) by {
        let a = lemma_listed_at(es, i, kids, m);
        assert(ms.contains(spot(es, kids[a])));
    }
    assert forall|a: int, b: int| 0 <= a < ms.len() && 0 <= b < ms.len() && a != b implies ms[a] != ms[b] by {
        if a < b {
            assert(ms[a] < ms[b]);
        } else {
            assert(ms[b] < ms[a]);
        }
    }
}

proof fn lemma_tuple(units: Seq<Unit>, slide: u64, def: Site, ms: Seq<int>, fields: Seq<FieldV>)
    requires
        are_members(units[def.unit as int].dies(), spot(units[def.unit as int].dies(), def.off), ms),
        ms.len() == fields.len(),
        forall|j: int| 0 <= j < ms.len() ==> is_field(units, slide, def.unit, #[trigger] ms[j], fields[j]),
        crate::tuple::is_tuple(fields),
    ensures
        is_record(units, slide, def, (TyV::Tuple { fields: crate::tuple::by_position(fields, fields.len()) })),
{
    let es = units[def.unit as int].dies();
    let i = spot(es, def.off);
    let n = fields.len();
    let sorted = crate::tuple::by_position(fields, n);
    let sm = lemma_sorted_members(units, slide, def.unit, fields, ms, n);
    assert(ms.take(n as int) =~= ms);
    crate::tuple::law_fields_by_position(fields, n);
    lemma_have_fields(units, slide, def.unit, sm, sorted, sorted.len());
    assert forall|j: int| 0 <= j < sm.len() implies is_such_child(es, i, #[trigger] sm[j], 0x0d, None) by {
        assert(sm.contains(sm[j]));
        let a = choose|a: int| 0 <= a < ms.len() && ms[a] == sm[j];
        assert(is_such_child(es, i, ms[a], 0x0d, None));
    }
    assert forall|m: int| #[trigger] is_such_child(es, i, m, 0x0d, None) implies sm.contains(m) by {
        assert(ms.contains(m));
    }
    assert(are_members(es, i, sm));
    assert forall|k: int| 0 <= k < sorted.len() implies crate::tuple::is_positional((#[trigger] sorted[k]).name) by {
        assert(is_field(units, slide, def.unit, sm[k], sorted[k]));
        assert(sm.contains(sm[k]));
        let a = choose|a: int| 0 <= a < ms.len() && ms[a] == sm[k];
        assert(is_field(units, slide, def.unit, ms[a], fields[a]));
        assert(crate::tuple::is_positional(fields[a].name));
    }
    assert(is_tuple_like(sorted));
}

/// Whether a position is that of a member among listed children.
spec fn is_kid_member(es: Seq<Entry>, kids: Seq<usize>, k: int, m: int) -> bool {
    exists|a: int|
        k <= a < kids.len() && spot(es, #[trigger] kids[a]) == m && crate::die::tag_of(es, kids[a]) == Some(0x0du16)
}

/// The members that fields are read from.
proof fn lemma_fields(
    units: Seq<Unit>,
    slide: u64,
    ui: usize,
    kids: Seq<usize>,
    k: nat,
    memo: Seq<Site>,
) -> (ms: Seq<int>)
    requires
        all_ascending(units),
        ui < units.len(),
        k <= kids.len(),
        forall|j: int| 0 <= j < kids.len() ==> index_of(units[ui as int].dies(), #[trigger] kids[j]) is Some,
        forall|j: int, l: int|
            0 <= j < l < kids.len() ==> spot(units[ui as int].dies(), #[trigger] kids[j]) < spot(
                units[ui as int].dies(),
                #[trigger] kids[l],
            ),
    ensures
        fields_among(units, slide, ui, kids, k, memo) matches Ok(fields) ==> {
            let es = units[ui as int].dies();
            &&& ms.len() == fields.len()
            &&& crate::locals::in_order(ms)
            &&& forall|j: int| 0 <= j < ms.len() ==> is_field(units, slide, ui, #[trigger] ms[j], fields[j])
            &&& forall|j: int|
                0 <= j < ms.len() ==> is_kid_member(es, kids, k as int, #[trigger] ms[j])
            &&& forall|a: int|
                k <= a < kids.len() && crate::die::tag_of(es, #[trigger] kids[a]) == Some(0x0du16) ==> ms.contains(
                    spot(es, kids[a]),
                )
        },
    decreases size_of(units) + 1 - memo.len(), size_of(units) + 1, 0nat, kids.len() - k,
{
    let unit = units[ui as int];
    let es = unit.dies();
    if k >= kids.len() {
        Seq::empty()
    } else {
        let rest = lemma_fields(units, slide, ui, kids, k + 1, memo);
        let c = spot(es, kids[k as int]);
        assert(es[c].offset == kids[k as int]);
        if crate::die::tag_of(es, kids[k as int]) != Some(0x0du16) {
            rest
        } else {
            if let Some(t) = type_of(es, kids[k as int]) {
                lemma_part(units, slide, ui, t, memo);
            }
            let ms = seq![c] + rest;
            if let Ok(fields) = fields_among(units, slide, ui, kids, k, memo) {
                let later = fields_among(units, slide, ui, kids, k + 1, memo)->Ok_0;
                assert forall|j: int| 0 <= j < ms.len() implies is_kid_member(es, kids, k as int, #[trigger] ms[j]) by {
                    if j == 0 {
                        assert(spot(es, kids[k as int]) == ms[0]);
                    } else {
                        assert(is_kid_member(es, kids, k as int + 1, rest[j - 1]));
                        let a = choose|a: int|
                            k + 1 <= a < kids.len() && spot(es, #[trigger] kids[a]) == rest[j - 1]
                                && crate::die::tag_of(es, kids[a]) == Some(0x0du16);
                        assert(spot(es, kids[a]) == ms[j]);
                    }
                }
                assert forall|x: int, y: int| 0 <= x < y < ms.len() implies #[trigger] ms[x] < #[trigger] ms[y] by {
                    if x > 0 {
                        assert(rest[x - 1] < rest[y - 1]);
                    } else {
                        assert(is_kid_member(es, kids, k as int + 1, rest[y - 1]));
                        let a = choose|a: int|
                            k + 1 <= a < kids.len() && spot(es, #[trigger] kids[a]) == rest[y - 1]
                                && crate::die::tag_of(es, kids[a]) == Some(0x0du16);
                        assert(spot(es, kids[k as int]) < spot(es, kids[a]));
                    }
                }
                assert forall|j: int| 0 <= j < ms.len() implies is_field(units, slide, ui, #[trigger] ms[j], fields[j]) by {
                    if j > 0 {
                        assert(is_field(units, slide, ui, rest[j - 1], later[j - 1]));
                        assert(fields[j] == later[j - 1]);
                    }
                }
                assert forall|a: int|
                    k <= a < kids.len() && crate::die::tag_of(es, #[trigger] kids[a]) == Some(0x0du16) implies ms.contains(
                    spot(es, kids[a]),
                ) by {
                    if a == k {
                        assert(ms[0] == c);
                    } else {
                        assert(rest.contains(spot(es, kids[a])));
                        let j = choose|j: int| 0 <= j < rest.len() && rest[j] == spot(es, kids[a]);
                        assert(ms[j + 1] == spot(es, kids[a]));
                    }
                }
            }
            ms
        }
    }
}

/// Whether what is known of variants is what the first of them give.
#[verifier::opaque]
spec fn variants_known(
    units: Seq<Unit>,
    slide: u64,
    ui: usize,
    kids: Seq<usize>,
    k: int,
    vs: Variants,
) -> bool {
    let es = units[ui as int].dies();
    &&& match vs.none {
        Some(d) => exists|j: int| #[trigger] last_empty(es, kids, k, j) && (es[spot(es, kids[j])].discr_value matches Some(
            x,
        ) && x == d),
        None => (forall|j: int| 0 <= j < k ==> !is_empty_variant(es, spot(es, #[trigger] kids[j]))) || exists|j: int|
            #[trigger] last_empty(es, kids, k, j) && es[spot(es, kids[j])].discr_value is None,
    }
    &&& match vs.some {
        Some((d, o, ty)) => exists|j: int| #[trigger]
            last_full(es, kids, k, j) && payload_is(units, slide, ui, spot(es, kids[j]), d, o, ty),
        None => forall|j: int| 0 <= j < k ==> !is_full(es, spot(es, #[trigger] kids[j])),
    }
}

spec fn last_empty(es: Seq<Entry>, kids: Seq<usize>, k: int, j: int) -> bool {
    &&& 0 <= j < k
    &&& is_empty_variant(es, spot(es, kids[j]))
    &&& forall|i: int| j < i < k ==> !is_empty_variant(es, spot(es, #[trigger] kids[i]))
}

spec fn last_full(es: Seq<Entry>, kids: Seq<usize>, k: int, j: int) -> bool {
    &&& 0 <= j < k
    &&& is_full(es, spot(es, kids[j]))
    &&& forall|i: int| j < i < k ==> !is_full(es, spot(es, #[trigger] kids[i]))
}

#[verifier::opaque]
spec fn payload_is(units: Seq<Unit>, slide: u64, ui: usize, v: int, d: Option<u128>, o: usize, ty: TyV) -> bool {
    let es = units[ui as int].dies();
    exists|pm: int, f0: int, t: usize|
        {
            &&& #[trigger] is_full_variant(es, v, pm, f0, t)
            &&& o == lies(es, es[pm].offset) + lies(es, es[f0].offset)
            &&& match es[v].discr_value {
                Some(x) => d == Some(x as u128),
                None => d is None,
            }
            &&& describes(units, slide, (Site { unit: ui, off: t }), ty)
        }
}

proof fn lemma_one_first(es: Seq<Entry>, p: int, a: int, b: int, tag: u16, name: Option<Seq<char>>)
    requires
        is_first(es, p, a, tag, name),
        is_first(es, p, b, tag, name),
    ensures
        a == b,
{
}

/// What an entry is as a variant.
#[verifier::spinoff_prover]
#[verifier::rlimit(40)]
proof fn lemma_variant(units: Seq<Unit>, slide: u64, ui: usize, v: usize, before: Variants, memo: Seq<Site>)
    requires
        all_ascending(units),
        ui < units.len(),
        index_of(units[ui as int].dies(), v) is Some,
    ensures
        variant_at(units, slide, ui, v, before, memo) matches Ok(now) ==> {
            let es = units[ui as int].dies();
            let at = spot(es, v);
            ||| is_empty_variant(es, at) && !is_full(es, at) && now == (Variants {
                none: crate::classify::wide(es[at].discr_value),
                ..before
            })
            ||| !is_empty_variant(es, at) && is_full(es, at) && now.none == before.none && (now.some matches Some((d, o, ty))
                && payload_is(units, slide, ui, at, d, o, ty))
            ||| !is_empty_variant(es, at) && !is_full(es, at) && now == before
        },
    decreases size_of(units) + 1 - memo.len(), size_of(units), 4nat, 0nat,
{
    reveal(is_empty_variant);
    reveal(is_full);
    reveal(payload_is);
    let unit = units[ui as int];
    let es = unit.dies();
    let at = spot(es, v);
    assert(es[at].offset == v);
    if let Ok(now) = variant_at(units, slide, ui, v, before, memo) {
        if crate::die::tag_of(es, v) == Some(0x19u16) {
            lemma_first(unit, v, 0x0d, None);
            match crate::die::child_where(unit, v, 0x0d, None) {
                Err(f) => {},
                Ok(None) => {},
                Ok(Some(pm)) => {
                    let m = spot(es, pm);
                    assert(is_first(es, at, m, 0x0d, None));
                    assert forall|other: int| #[trigger] is_first(es, at, other, 0x0d, None) implies other == m by {
                        lemma_one_first(es, at, other, m, 0x0d, None);
                    }
                    if let Some(p) = type_of(es, pm) {
                        if let Ok(payload) = stripped(es, p) {
                            lemma_stripped_there(es, p, payload);
                            lemma_first(unit, payload, 0x0d, Some("__0"@));
                            let ps = spot(es, payload);
                            match crate::die::child_where(unit, payload, 0x0d, Some("__0"@)) {
                                Err(f) => {},
                                Ok(None) => {},
                                Ok(Some(f0)) => {
                                    let fm = spot(es, f0);
                                    assert(is_first(es, ps, fm, 0x0d, Some("__0"@)));
                                    assert(is_such_child(es, ps, fm, 0x0d, Some("__0"@)));
                                    assert forall|other: int| #[trigger]
                                        is_first(es, ps, other, 0x0d, Some("__0"@)) implies other == fm by {
                                        lemma_one_first(es, ps, other, fm, 0x0d, Some("__0"@));
                                    }
                                    assert(!is_empty_variant(es, at));
                                    match type_of(es, f0) {
                                        None => {
                                            assert(!is_full(es, at));
                                        },
                                        Some(t) => {
                                            lemma_part(units, slide, ui, t, memo);
                                            assert(is_full_variant(es, at, m, fm, t));
                                        },
                                    }
                                },
                            }
                        }
                    }
                },
            }
        }
    }
}

/// The type behind typedefs is an entry.
proof fn lemma_stripped_there(es: Seq<Entry>, off: usize, to: usize)
    requires
        stripped(es, off) == Ok::<usize, Fault>(to),
    ensures
        index_of(es, to) is Some,
{
    lemma_strip_there(es, off, to, es.len());
}

proof fn lemma_strip_there(es: Seq<Entry>, off: usize, to: usize, fuel: nat)
    requires
        crate::die::strip_within(es, off, fuel) == Ok::<usize, Fault>(to),
    ensures
        index_of(es, to) is Some,
    decreases fuel,
{
    if let Some(t) = crate::die::tag_of(es, off) {
        if crate::die::is_wrapper(t) {
            if let Some(inner) = type_of(es, off) {
                lemma_strip_there(es, inner, to, (fuel - 1) as nat);
            }
        }
    }
}

proof fn lemma_variants(
    units: Seq<Unit>,
    slide: u64,
    ui: usize,
    kids: Seq<usize>,
    k: nat,
    before: Variants,
    memo: Seq<Site>,
)
    requires
        all_ascending(units),
        ui < units.len(),
        k <= kids.len(),
        forall|j: int| 0 <= j < kids.len() ==> index_of(units[ui as int].dies(), #[trigger] kids[j]) is Some,
        variants_known(units, slide, ui, kids, k as int, before),
    ensures
        variants_among(units, slide, ui, kids, k, before, memo) matches Ok(vs) ==> variants_known(
            units,
            slide,
            ui,
            kids,
            kids.len() as int,
            vs,
        ),
    decreases size_of(units) + 1 - memo.len(), size_of(units) + 1, 0nat, kids.len() - k,
{
    let es = units[ui as int].dies();
    if k < kids.len() {
        lemma_variant(units, slide, ui, kids[k as int], before, memo);
        if let Ok(now) = variant_at(units, slide, ui, kids[k as int], before, memo) {
            lemma_variants_step(units, slide, ui, kids, k as int, before, now);
            lemma_variants(units, slide, ui, kids, k + 1, now, memo);
        }
    }
}

#[verifier::spinoff_prover]
#[verifier::rlimit(40)]
proof fn lemma_variants_step(
    units: Seq<Unit>,
    slide: u64,
    ui: usize,
    kids: Seq<usize>,
    k: int,
    before: Variants,
    now: Variants,
)
    requires
        0 <= k < kids.len(),
        variants_known(units, slide, ui, kids, k, before),
        ({
            let es = units[ui as int].dies();
            let at = spot(es, kids[k]);
            ||| is_empty_variant(es, at) && !is_full(es, at) && now == (Variants {
                none: crate::classify::wide(es[at].discr_value),
                ..before
            })
            ||| !is_empty_variant(es, at) && is_full(es, at) && now.none == before.none && (now.some matches Some((d, o, ty))
                && payload_is(units, slide, ui, at, d, o, ty))
            ||| !is_empty_variant(es, at) && !is_full(es, at) && now == before
        }),
    ensures
        variants_known(units, slide, ui, kids, k + 1, now),
{
    reveal(variants_known);
    let es = units[ui as int].dies();
    let at = spot(es, kids[k]);
    if is_empty_variant(es, at) {
        assert(last_empty(es, kids, k + 1, k));
    } else {
        assert forall|j: int| #[trigger] last_empty(es, kids, k, j) implies last_empty(es, kids, k + 1, j) by {}
        match before.none {
            Some(d) => {
                let j = choose|j: int| #[trigger]
                    last_empty(es, kids, k, j) && (es[spot(es, kids[j])].discr_value matches Some(x) && x == d);
                assert(last_empty(es, kids, k + 1, j));
            },
            None => {
                if exists|j: int| #[trigger] last_empty(es, kids, k, j) && es[spot(es, kids[j])].discr_value is None {
                    let j = choose|j: int| #[trigger]
                        last_empty(es, kids, k, j) && es[spot(es, kids[j])].discr_value is None;
                    assert(last_empty(es, kids, k + 1, j));
                }
            },
        }
    }
    if is_full(es, at) {
        assert(last_full(es, kids, k + 1, k));
    } else {
        if let Some((d, o, ty)) = before.some {
            let j = choose|j: int| #[trigger]
                last_full(es, kids, k, j) && payload_is(units, slide, ui, spot(es, kids[j]), d, o, ty);
            assert(last_full(es, kids, k + 1, j));
        }
    }
}

/// Whether a value in an enum is what a variant gives.
spec fn some_is(
    units: Seq<Unit>,
    slide: u64,
    ui: usize,
    vp: int,
    v: int,
    pm: int,
    f0: int,
    t: usize,
    d: Option<u128>,
    o: usize,
    ty: TyV,
) -> bool {
    let es = units[ui as int].dies();
    &&& is_some(es, vp, v, pm, f0, t)
    &&& o == lies(es, es[pm].offset) + lies(es, es[f0].offset)
    &&& match es[v].discr_value {
        Some(x) => d == Some(x as u128),
        None => d is None,
    }
    &&& describes(units, slide, (Site { unit: ui, off: t }), ty)
}

proof fn lemma_none_over_tree(units: Seq<Unit>, slide: u64, ui: usize, p: int, kids: Seq<usize>, vs: Variants)
    requires
        ascending(units[ui as int].dies()),
        are_listed(units[ui as int].dies(), p, kids),
        variants_known(units, slide, ui, kids, kids.len() as int, vs),
    ensures
        match vs.none {
            Some(d) => exists|v: int, x: u64| #[trigger] is_none(units[ui as int].dies(), p, v, Some(x)) && d == x,
            None => forall|v: int, x: u64| !(#[trigger] is_none(units[ui as int].dies(), p, v, Some(x))),
        },
{
    let es = units[ui as int].dies();
    let n = kids.len() as int;
    reveal(variants_known);
    lemma_variants_over_tree(es, p, kids);
    if let Some(d) = vs.none {
        let j = choose|j: int| #[trigger]
            last_empty(es, kids, n, j) && (es[spot(es, kids[j])].discr_value matches Some(x) && x == d);
        assert(is_none(es, p, spot(es, kids[j]), Some(d as u64)));
    } else {
        assert forall|v: int, x: u64| !(#[trigger] is_none(es, p, v, Some(x))) by {
            if is_none(es, p, v, Some(x)) {
                let a = lemma_listed_at(es, p, kids, v);
                assert(is_empty_variant(es, spot(es, kids[a])));
                let j = choose|j: int| #[trigger]
                    last_empty(es, kids, n, j) && es[spot(es, kids[j])].discr_value is None;
                let b = spot(es, kids[j]);
                assert(is_none(es, p, b, None));
                if b < v {
                    assert(is_child(es, p, v));
                }
                if v < b {
                    assert(is_child(es, p, b));
                }
            }
        }
    }
}

proof fn lemma_some_over_tree(units: Seq<Unit>, slide: u64, ui: usize, p: int, kids: Seq<usize>, vs: Variants)
    requires
        ascending(units[ui as int].dies()),
        are_listed(units[ui as int].dies(), p, kids),
        variants_known(units, slide, ui, kids, kids.len() as int, vs),
    ensures
        match vs.some {
            Some((d, o, ty)) => exists|v: int, pm: int, f0: int, t: usize| #[trigger]
                some_is(units, slide, ui, p, v, pm, f0, t, d, o, ty),
            None => forall|v: int| #[trigger] is_child(units[ui as int].dies(), p, v) ==> !is_full(
                units[ui as int].dies(),
                v,
            ),
        },
{
    let es = units[ui as int].dies();
    let n = kids.len() as int;
    reveal(variants_known);
    lemma_variants_over_tree(es, p, kids);
    if let Some((d, o, inner)) = vs.some {
        let j = choose|j: int| #[trigger]
            last_full(es, kids, n, j) && payload_is(units, slide, ui, spot(es, kids[j]), d, o, inner);
        let v = spot(es, kids[j]);
        reveal(payload_is);
        let (pm, f0, t) = choose|pm: int, f0: int, t: usize|
            {
                &&& #[trigger] is_full_variant(es, v, pm, f0, t)
                &&& o == lies(es, es[pm].offset) + lies(es, es[f0].offset)
                &&& match es[v].discr_value {
                    Some(x) => d == Some(x as u128),
                    None => d is None,
                }
                &&& describes(units, slide, (Site { unit: ui, off: t }), inner)
            };
        lemma_listed_order(es, p, kids, j, j);
        assert(is_some(es, p, v, pm, f0, t));
        assert(some_is(units, slide, ui, p, v, pm, f0, t, d, o, inner));
    } else {
        assert forall|v: int| #[trigger] is_child(es, p, v) implies !is_full(es, v) by {
            let a = lemma_listed_at(es, p, kids, v);
            assert(!is_full(es, spot(es, kids[a])));
        }
    }
}

#[verifier::spinoff_prover]
#[verifier::rlimit(40)]
proof fn lemma_option(units: Seq<Unit>, slide: u64, def: Site, vp: usize, name: Seq<char>, memo: Seq<Site>)
    requires
        all_ascending(units),
        def.unit < units.len(),
        index_of(units[def.unit as int].dies(), def.off) is Some,
        index_of(units[def.unit as int].dies(), vp) is Some,
        is_first(
            units[def.unit as int].dies(),
            spot(units[def.unit as int].dies(), def.off),
            spot(units[def.unit as int].dies(), vp),
            0x33,
            None,
        ),
        name == title(units[def.unit as int].dies(), def.off),
    ensures
        option_layout(units, slide, def, vp, name, memo) matches Ok(ty) ==> is_option(units, slide, def, ty),
    decreases size_of(units) + 1 - memo.len(), size_of(units) + 1, 1nat, 0nat,
{
    let unit = units[def.unit as int];
    let es = unit.dies();
    let p = spot(es, vp);
    if let Ok(ty) = option_layout(units, slide, def, vp, name, memo) {
        if let Some(dm) = crate::classify::discr_member(es, vp) {
            let kids = crate::die::children(unit, vp)->Ok_0;
            let none = Variants { none: None, some: None };
            lemma_listed(unit, vp, kids);
            assert(variants_known(units, slide, def.unit, kids, 0, none)) by {
                reveal(variants_known);
            }
            lemma_variants(units, slide, def.unit, kids, 0, none, memo);
            let vs = variants_among(units, slide, def.unit, kids, 0, none, memo)->Ok_0;
            lemma_none_over_tree(units, slide, def.unit, p, kids, vs);
            lemma_some_over_tree(units, slide, def.unit, p, kids, vs);
            if let Some((d, o, inner)) = vs.some {
                let (v, pm, f0, t) = choose|v: int, pm: int, f0: int, t: usize| #[trigger]
                    some_is(units, slide, def.unit, p, v, pm, f0, t, d, o, inner);
                assert(is_some(es, p, v, pm, f0, t));
            }
        }
        assert(is_first(es, spot(es, def.off), p, 0x33, None));
    }
}

/// Whether offsets are those of an entry's children, in order.
#[verifier::opaque]
spec fn are_listed(es: Seq<Entry>, p: int, kids: Seq<usize>) -> bool {
    &&& forall|k: int|
        0 <= k < kids.len() ==> index_of(es, #[trigger] kids[k]) is Some && is_child(es, p, spot(es, kids[k]))
    &&& forall|j: int, k: int| 0 <= j < k < kids.len() ==> spot(es, #[trigger] kids[j]) < spot(es, #[trigger] kids[k])
    &&& forall|c: int| #[trigger] is_child(es, p, c) ==> kids.contains(es[c].offset)
}

proof fn lemma_listed(unit: Unit, off: usize, kids: Seq<usize>)
    requires
        ascending(unit.dies()),
        index_of(unit.dies(), off) is Some,
        crate::die::children(unit, off) == Ok::<Seq<usize>, Fault>(kids),
    ensures
        are_listed(unit.dies(), spot(unit.dies(), off), kids),
        forall|j: int| 0 <= j < kids.len() ==> index_of(unit.dies(), #[trigger] kids[j]) is Some,
{
    reveal(are_listed);
    crate::tree::law_children_are_what_stands_under(unit, off);
}

proof fn lemma_listed_at(es: Seq<Entry>, p: int, kids: Seq<usize>, c: int) -> (a: int)
    requires
        ascending(es),
        are_listed(es, p, kids),
        is_child(es, p, c),
    ensures
        0 <= a < kids.len(),
        kids[a] == es[c].offset,
        spot(es, kids[a]) == c,
{
    reveal(are_listed);
    assert(kids.contains(es[c].offset));
    let a = choose|a: int| 0 <= a < kids.len() && kids[a] == es[c].offset;
    crate::die::lemma_index_of(es, es[c].offset, c);
    a
}

/// What is last among listed children is last in the tree.
proof fn lemma_variants_over_tree(es: Seq<Entry>, p: int, kids: Seq<usize>)
    requires
        ascending(es),
        are_listed(es, p, kids),
    ensures
        forall|j: int| #[trigger]
            last_empty(es, kids, kids.len() as int, j) ==> is_none(
                es,
                p,
                spot(es, kids[j]),
                es[spot(es, kids[j])].discr_value,
            ),
        forall|j: int| #[trigger]
            last_full(es, kids, kids.len() as int, j) ==> forall|b: int|
                b > spot(es, kids[j]) && #[trigger] is_child(es, p, b) ==> !is_full(es, b),
{
    let n = kids.len() as int;
    assert forall|j: int| #[trigger] last_empty(es, kids, n, j) implies is_none(
        es,
        p,
        spot(es, kids[j]),
        es[spot(es, kids[j])].discr_value,
    ) by {
        let v = spot(es, kids[j]);
        lemma_listed_order(es, p, kids, j, j);
        assert forall|b: int| b > v && #[trigger] is_child(es, p, b) implies !is_empty_variant(es, b) by {
            let a = lemma_listed_at(es, p, kids, b);
            lemma_listed_order(es, p, kids, a, j);
            assert(!is_empty_variant(es, spot(es, kids[a])));
        }
    }
    assert forall|j: int| #[trigger] last_full(es, kids, n, j) implies forall|b: int|
        b > spot(es, kids[j]) && #[trigger] is_child(es, p, b) ==> !is_full(es, b) by {
        let v = spot(es, kids[j]);
        assert forall|b: int| b > v && #[trigger] is_child(es, p, b) implies !is_full(es, b) by {
            let a = lemma_listed_at(es, p, kids, b);
            lemma_listed_order(es, p, kids, a, j);
            assert(!is_full(es, spot(es, kids[a])));
        }
    }
}

proof fn lemma_listed_order(es: Seq<Entry>, p: int, kids: Seq<usize>, a: int, j: int)
    requires
        are_listed(es, p, kids),
        0 <= a < kids.len(),
        0 <= j < kids.len(),
    ensures
        is_child(es, p, spot(es, kids[a])),
        a < j ==> spot(es, kids[a]) < spot(es, kids[j]),
{
    reveal(are_listed);
    assert(is_child(es, p, spot(es, kids[a])));
}

/// The layout of a type is what its entries give: it is read from the entry that the
/// site leads to, and every offset, size, discriminant and address in it, at any depth,
/// is the one that stands there.
pub proof fn law_layout_is_described(units: Seq<Unit>, slide: u64, site: Site)
    requires
        all_ascending(units),
    ensures
        classified(units, slide, site) matches Ok(ty) ==> describes(units, slide, site, ty),
{
    lemma_layout(units, slide, site, Seq::empty(), size_of(units));
}

// ---------------------------------------------------------------------------
// Of single types.
// ---------------------------------------------------------------------------

proof fn lemma_one_parameter(es: Seq<Entry>, off: usize, name: Option<Seq<char>>, a: usize, b: usize)
    requires
        is_parameter(es, off, name, a),
        is_parameter(es, off, name, b),
    ensures
        a == b,
{
    let p = spot(es, off);
    let c = choose|c: int| #[trigger] is_first(es, p, c, 0x2f, name) && type_of(es, es[c].offset) == Some(a);
    let d = choose|d: int| #[trigger] is_first(es, p, d, 0x2f, name) && type_of(es, es[d].offset) == Some(b);
    lemma_one_first(es, p, c, d, 0x2f, name);
}

/// A site leads to one entry.
pub proof fn law_site_leads_to_one_entry(units: Seq<Unit>, site: Site, a: Site, m: nat, b: Site, n: nat)
    requires
        leads(units, site, a, m),
        leads(units, site, b, n),
    ensures
        a == b,
    decreases m,
{
    let off = stripped(units[site.unit as int].dies(), site.off)->Ok_0;
    let def = crate::index::site_of(units, Site { unit: site.unit, off })->Ok_0;
    let es = units[def.unit as int].dies();
    if m > 0 {
        let t = choose|t: usize| #[trigger]
            is_parameter(es, def.off, None, t) && leads(units, Site { unit: def.unit, off: t }, a, (m - 1) as nat);
        let u = choose|u: usize| #[trigger]
            is_parameter(es, def.off, None, u) && leads(units, Site { unit: def.unit, off: u }, b, (n - 1) as nat);
        lemma_one_parameter(es, def.off, None, t, u);
        law_site_leads_to_one_entry(units, Site { unit: def.unit, off: t }, a, (m - 1) as nat, b, (n - 1) as nat);
    }
}

/// A layout without the mark of a type that refers to itself.
pub open spec fn body_of(ty: TyV) -> TyV {
    match ty {
        TyV::Rec { site, body } => *body,
        _ => ty,
    }
}

/// The layout of a type is that of the entry which its site leads to.
proof fn lemma_body(units: Seq<Unit>, slide: u64, site: Site, at: Site, n: nat)
    requires
        all_ascending(units),
        leads(units, site, at, n),
    ensures
        classified(units, slide, site) matches Ok(ty) ==> shaped(units, slide, at, body_of(ty)),
{
    if let Ok(ty) = classified(units, slide, site) {
        law_layout_is_described(units, slide, site);
        crate::classify::law_back_edges_are_tied(units, slide, site);
        let (to, m) = choose|to: Site, m: nat| #[trigger] leads(units, site, to, m) && stands(units, slide, to, ty);
        law_site_leads_to_one_entry(units, site, at, n, to, m);
    }
}

/// Whether a struct is one of those with a layout of their own.
pub open spec fn is_known_struct(name: Seq<char>) -> bool {
    ||| name == "String"@
    ||| name == "&str"@
    ||| crate::text::begins(name, "Vec<"@)
    ||| crate::text::begins(name, "BTreeMap<"@)
}

/// Whether two stretches of bytes have none in common.
pub open spec fn are_apart(a: int, a_len: int, b: int, b_len: int) -> bool {
    a + a_len <= b || b + b_len <= a
}

/// The value in an `Option` lies where the entries put it: the variant's member lies
/// somewhere in the enum, `__0` lies somewhere in the member's type, and the value at
/// the sum. So it lies inside the enum where the member does and it lies inside the
/// member, and apart from the discriminant where the entries put it apart. Where there
/// are a discriminant and a variant that holds nothing, the layout is that of an
/// `Option`.
pub proof fn law_payload_lies_at_both_offsets(
    units: Seq<Unit>,
    slide: u64,
    site: Site,
    at: Site,
    n: nat,
    vp: int,
    v: int,
    pm: int,
    f0: int,
    t: usize,
    room: int,
    span: int,
)
    requires
        all_ascending(units),
        leads(units, site, at, n),
        ({
            let es = units[at.unit as int].dies();
            let i = spot(es, at.off);
            &&& es[i].tag == 0x13
            &&& !is_known_struct(title(es, at.off))
            &&& is_first(es, i, vp, 0x33, None)
            &&& is_some(es, vp, v, pm, f0, t)
        }),
    ensures
        classified(units, slide, site) matches Ok(ty) ==> {
            let es = units[at.unit as int].dies();
            let a = lies(es, es[pm].offset);
            let b = lies(es, es[f0].offset);
            let bytes = given(es, at.off, 0x0b, 0);
            match body_of(ty) {
                TyV::Opt { disc_off, disc_size, none_discr, some_discr, payload_off, size, inner } => {
                    &&& payload_off == a + b
                    &&& size == bytes
                    &&& a + room <= bytes && b + span <= room ==> payload_off + span <= size
                    &&& attr_of(es[vp], 0x15) matches Some(Attr::UnitRef(dm)) && disc_off == lies(es, dm) && takes(
                        es,
                        dm,
                        disc_size,
                    ) && (are_apart(lies(es, dm) as int, disc_size as int, a + b, span) ==> are_apart(
                        disc_off as int,
                        disc_size as int,
                        payload_off as int,
                        span,
                    ))
                    &&& match es[v].discr_value {
                        Some(d) => some_discr == Some(d as u128),
                        None => some_discr is None,
                    }
                    &&& exists|u: int, d: u64| #[trigger] is_none(es, vp, u, Some(d)) && none_discr == d
                    &&& describes(units, slide, (Site { unit: at.unit, off: t }), *inner)
                },
                other => {
                    &&& other == TyV::Unknown("enum "@ + title(es, at.off))
                    &&& {
                        ||| !(attr_of(es[vp], 0x15) matches Some(Attr::UnitRef(_)))
                        ||| forall|u: int, d: u64| !(#[trigger] is_none(es, vp, u, Some(d)))
                    }
                },
            }
        },
{
    if let Ok(ty) = classified(units, slide, site) {
        let es = units[at.unit as int].dies();
        let i = spot(es, at.off);
        lemma_body(units, slide, site, at, n);
        let body = body_of(ty);
        assert(is_such_child(es, i, vp, 0x33, None));
        assert(is_option(units, slide, at, body));
        assert forall|other: int| #[trigger] is_first(es, i, other, 0x33, None) implies other == vp by {
            lemma_one_first(es, i, other, vp, 0x33, None);
        }
        lemma_one_some(es, vp, v, pm, f0, t);
        assert(is_full(es, v)) by {
            reveal(is_full);
        }
        assert(is_child(es, vp, v));
    }
}

/// One variant is the last that holds a value.
proof fn lemma_one_some(es: Seq<Entry>, vp: int, v: int, pm: int, f0: int, t: usize)
    requires
        is_some(es, vp, v, pm, f0, t),
    ensures
        forall|w: int, qm: int, g0: int, u: usize| #[trigger]
            is_some(es, vp, w, qm, g0, u) ==> w == v && qm == pm && g0 == f0 && u == t,
{
    assert forall|w: int, qm: int, g0: int, u: usize| #[trigger] is_some(es, vp, w, qm, g0, u) implies w == v && qm
        == pm && g0 == f0 && u == t by {
        reveal(is_full);
        assert(is_full_variant(es, v, pm, f0, t));
        assert(is_full_variant(es, w, qm, g0, u));
        assert(is_full(es, v) && is_full(es, w));
        assert(is_child(es, vp, v) && is_child(es, vp, w));
        assert(w == v);
        lemma_one_first(es, v, qm, pm, 0x0d, None);
        let p = type_of(es, es[pm].offset)->0;
        let s = stripped(es, p)->Ok_0;
        lemma_one_first(es, spot(es, s), g0, f0, 0x0d, Some("__0"@));
    }
}

/// A `BTreeMap` is filled by the function for its values: the address is that of a
/// subprogram whose name begins with `map_insert` and holds between its brackets, but
/// for the path, the name of the type that the parameter `V` stands for.
pub proof fn law_map_is_filled_by_its_own_function(units: Seq<Unit>, slide: u64, site: Site, at: Site, n: nat, v: usize)
    requires
        all_ascending(units),
        leads(units, site, at, n),
        ({
            let es = units[at.unit as int].dies();
            &&& es[spot(es, at.off)].tag == 0x13
            &&& crate::text::begins(title(es, at.off), "BTreeMap<"@)
            &&& is_parameter(es, at.off, Some("V"@), v)
        }),
    ensures
        classified(units, slide, site) matches Ok(ty) ==> (body_of(ty) matches TyV::BTreeMap {
            key,
            key_size,
            val,
            val_size,
            new_at,
            insert,
        } && {
            let es = units[at.unit as int].dies();
            &&& exists|ui: int, i: int, lo: u64, inner: Seq<char>|
                {
                    &&& #[trigger] fills_maps(units, ui, i, lo, inner)
                    &&& insert == lo + slide
                    &&& crate::tramp::short_name(inner) == crate::tramp::short_name(title(es, v))
                }
            &&& describes(units, slide, (Site { unit: at.unit, off: v }), *val)
        }),
{
    if let Ok(ty) = classified(units, slide, site) {
        let es = units[at.unit as int].dies();
        let name = title(es, at.off);
        lemma_body(units, slide, site, at, n);
        reveal_strlit("String");
        reveal_strlit("&str");
        reveal_strlit("Vec<");
        reveal_strlit("BTreeMap<");
        assert(name.take(9)[0] == 'B');
        assert(name[0] == 'B');
        assert(!crate::text::begins(name, "Vec<"@)) by {
            if crate::text::begins(name, "Vec<"@) {
                assert(name.take(4)[0] == 'V');
            }
        }
        let body = body_of(ty);
        assert(is_map(units, slide, at, body));
        if let TyV::BTreeMap { key, key_size, val, val_size, new_at, insert } = body {
            let (k, w) = choose|k: usize, w: usize|
                {
                    &&& #[trigger] is_parameter(es, at.off, Some("K"@), k)
                    &&& #[trigger] is_parameter(es, at.off, Some("V"@), w)
                    &&& describes(units, slide, (Site { unit: at.unit, off: k }), *key)
                    &&& describes(units, slide, (Site { unit: at.unit, off: w }), *val)
                    &&& stripped(es, k) matches Ok(ks) && key_size == given(es, ks, 0x0b, 24)
                    &&& stripped(es, w) matches Ok(vs) && val_size == given(es, vs, 0x0b, 1)
                    &&& built_at(units, slide, "map_new_at"@, None, new_at)
                    &&& built_at(units, slide, "map_insert"@, Some(title(es, w)), insert)
                };
            lemma_one_parameter(es, at.off, Some("V"@), v, w);
            let want = Some(title(es, v));
            let (ui, i) = choose|ui: int, i: int| #[trigger]
                builder_at(units, ui, i, "map_insert"@, want) && (attr_of(units[ui].dies()[i], 0x11) matches Some(
                    Attr::Addr(lo),
                ) && insert == lo + slide);
            let e = units[ui].dies()[i];
            let lo = match attr_of(e, 0x11) {
                Some(Attr::Addr(lo)) => lo,
                _ => 0,
            };
            let called = title(units[ui].dies(), e.offset);
            let inner = choose|inner: Seq<char>| #[trigger]
                is_bracketed(called, inner) && crate::tramp::short_name(inner) == crate::tramp::short_name(title(es, v));
            assert(fills_maps(units, ui, i, lo, inner));
        }
    }
}

/// Whether a subprogram with code at a link-time address fills maps of some values.
pub open spec fn fills_maps(units: Seq<Unit>, ui: int, i: int, lo: u64, inner: Seq<char>) -> bool {
    &&& 0 <= ui < units.len()
    &&& 0 <= i < units[ui].dies().len()
    &&& units[ui].dies()[i].tag == 0x2e
    &&& attr_of(units[ui].dies()[i], 0x11) == Some(Attr::Addr(lo))
    &&& crate::text::begins(title(units[ui].dies(), units[ui].dies()[i].offset), "map_insert"@)
    &&& is_bracketed(title(units[ui].dies(), units[ui].dies()[i].offset), inner)
}

// ---------------------------------------------------------------------------
// What is there is found.
// ---------------------------------------------------------------------------

/// Whether a member's name makes it a word.
pub open spec fn is_word_name(name: Option<Seq<char>>) -> bool {
    names_word(Word::Capacity, name) || names_word(Word::Length, name)
}

/// Whether a type has a word that is not hidden in a member which is a word itself.
pub open spec fn has_open_word(units: Seq<Unit>, site: Site, w: Word, d: nat) -> bool
    decreases d, 1nat,
{
    &&& site.unit < units.len()
    &&& stripped(units[site.unit as int].dies(), site.off) matches Ok(o)
    &&& crate::index::site_of(units, (Site { unit: site.unit, off: o })) matches Ok(def)
    &&& def.unit < units.len()
    &&& index_of(units[def.unit as int].dies(), def.off) is Some
    &&& {
        let es = units[def.unit as int].dies();
        let i = spot(es, def.off);
        ||| es[i].tag == 0x0f && w is Pointer
        ||| (es[i].tag == 0x13 || es[i].tag == 0x17) && exists|m: int| #[trigger]
            is_such_child(es, i, m, 0x0d, None) && is_open_member(units, def.unit, es[m].offset, w, d)
    }
}

/// Whether a member is a word by its name, or is none and has one.
pub open spec fn is_open_member(units: Seq<Unit>, ui: usize, m: usize, w: Word, d: nat) -> bool
    decreases d, 0nat,
{
    let es = units[ui as int].dies();
    ||| names_word(w, name_of(es, m))
    ||| d > 0 && !is_word_name(name_of(es, m)) && (type_of(es, m) matches Some(t) && has_open_word(
        units,
        (Site { unit: ui, off: t }),
        w,
        (d - 1) as nat,
    ))
}

spec fn word_of(w: Word, ws: Words) -> Option<usize> {
    match w {
        Word::Pointer => ws.ptr,
        Word::Capacity => ws.cap,
        Word::Length => ws.len,
    }
}

/// Whether one of some children is a member that has a word.
spec fn some_open(units: Seq<Unit>, ui: usize, kids: Seq<usize>, k: int, w: Word, d: nat) -> bool {
    exists|j: int| k <= j < kids.len() && is_open_kid(units, ui, #[trigger] kids[j], w, d)
}

spec fn is_open_kid(units: Seq<Unit>, ui: usize, m: usize, w: Word, d: nat) -> bool {
    crate::die::tag_of(units[ui as int].dies(), m) == Some(0x0du16) && is_open_member(units, ui, m, w, d)
}

/// What is known after a member.
spec fn words_then(units: Seq<Unit>, ui: usize, m: usize, base: usize, ws: Words, depth: nat) -> Words {
    let es = units[ui as int].dies();
    let abs = (base + lies(es, m)) as usize;
    let name = name_of(es, m);
    if crate::die::tag_of(es, m) != Some(0x0du16) {
        ws
    } else if names_word(Word::Capacity, name) && ws.cap is None {
        Words { cap: Some(abs), ..ws }
    } else if names_word(Word::Length, name) && ws.len is None {
        Words { len: Some(abs), ..ws }
    } else {
        match type_of(es, m) {
            None => ws,
            Some(t) => words_in(units, Site { unit: ui, off: t }, abs, ws, depth + 1)->Ok_0,
        }
    }
}

#[verifier::spinoff_prover]
#[verifier::rlimit(40)]
proof fn lemma_open_word_found(units: Seq<Unit>, site: Site, base: usize, ws: Words, depth: nat, w: Word)
    requires
        all_ascending(units),
        depth <= MAX_WORD_DEPTH,
    ensures
        words_in(units, site, base, ws, depth) matches Ok(r) ==> (word_of(w, ws) is Some || has_open_word(
            units,
            site,
            w,
            (MAX_WORD_DEPTH - depth) as nat,
        ) ==> word_of(w, r) is Some),
    decreases MAX_WORD_DEPTH + 1 - depth, 1nat, 0nat,
{
    if let Ok(r) = words_in(units, site, base, ws, depth) {
        let d = (MAX_WORD_DEPTH - depth) as nat;
        let off = stripped(units[site.unit as int].dies(), site.off)->Ok_0;
        let def = crate::index::site_of(units, Site { unit: site.unit, off })->Ok_0;
        let unit = units[def.unit as int];
        let es = unit.dies();
        let i = spot(es, def.off);
        let t = crate::die::tag_of(es, def.off)->0;
        if t == 0x13 || t == 0x17 {
            if let Ok(kids) = crate::die::children(unit, def.off) {
                lemma_open_word_among(units, def.unit, kids, 0, base, ws, depth, w);
                lemma_listed(unit, def.off, kids);
                if has_open_word(units, site, w, d) {
                    let m = choose|m: int| #[trigger]
                        is_such_child(es, i, m, 0x0d, None) && is_open_member(units, def.unit, es[m].offset, w, d);
                    let j = lemma_listed_at(es, i, kids, m);
                    assert(is_open_kid(units, def.unit, kids[j], w, d));
                }
            }
        }
    }
}

#[verifier::spinoff_prover]
#[verifier::rlimit(40)]
proof fn lemma_open_word_among(
    units: Seq<Unit>,
    ui: usize,
    kids: Seq<usize>,
    k: nat,
    base: usize,
    ws: Words,
    depth: nat,
    w: Word,
)
    requires
        all_ascending(units),
        depth <= MAX_WORD_DEPTH,
        ui < units.len(),
    ensures
        words_among(units, ui, kids, k, base, ws, depth) matches Ok(r) ==> (word_of(w, ws) is Some || some_open(
            units,
            ui,
            kids,
            k as int,
            w,
            (MAX_WORD_DEPTH - depth) as nat,
        ) ==> word_of(w, r) is Some),
    decreases MAX_WORD_DEPTH + 1 - depth, 0nat, kids.len() - k,
{
    let d = (MAX_WORD_DEPTH - depth) as nat;
    if k < kids.len() {
        if let Ok(r) = words_among(units, ui, kids, k, base, ws, depth) {
            let es = units[ui as int].dies();
            let m = kids[k as int];
            let then = words_then(units, ui, m, base, ws, depth);
            assert(words_among(units, ui, kids, k + 1, base, then, depth) == Ok::<Words, Fault>(r));
            lemma_open_word_among(units, ui, kids, k + 1, base, then, depth, w);
            if crate::die::tag_of(es, m) == Some(0x0du16) && type_of(es, m) is Some && depth < MAX_WORD_DEPTH {
                let t = type_of(es, m)->0;
                let abs = (base + lies(es, m)) as usize;
                lemma_open_word_found(units, Site { unit: ui, off: t }, abs, ws, depth + 1, w);
            }
            assert(word_of(w, ws) is Some ==> word_of(w, then) is Some);
            if is_open_kid(units, ui, m, w, d) {
                lemma_word_names();
                assert(word_of(w, then) is Some);
            } else if some_open(units, ui, kids, k as int, w, d) {
                let j = choose|j: int| k <= j < kids.len() && is_open_kid(units, ui, #[trigger] kids[j], w, d);
                assert(is_open_kid(units, ui, kids[j], w, d));
                assert(some_open(units, ui, kids, k as int + 1, w, d));
            }
        }
    }
}

proof fn lemma_word_names()
    ensures
        "cap"@ != "len"@,
        "cap"@ != "length"@,
        "capacity"@ != "len"@,
        "capacity"@ != "length"@,
{
    reveal_strlit("cap");
    reveal_strlit("capacity");
    reveal_strlit("len");
    reveal_strlit("length");
    assert("cap"@[0] == 'c' && "capacity"@[0] == 'c' && "len"@[0] == 'l' && "length"@[0] == 'l');
}

/// A `Vec`-like type that has a pointer, a capacity and a length, at most sixteen members
/// deep and none hidden in another, has a layout, unless something on the way cannot be
/// read or an offset is beyond what a machine word holds.
pub proof fn law_words_that_are_there_are_found(units: Seq<Unit>, at: Site)
    requires
        all_ascending(units),
        has_open_word(units, at, Word::Pointer, 16),
        has_open_word(units, at, Word::Capacity, 16),
        has_open_word(units, at, Word::Length, 16),
    ensures
        words_in(units, at, 0, (Words { ptr: None, cap: None, len: None }), 0) is Ok ==> (crate::classify::seq_layout_at(
            units,
            at,
        ) matches Ok(seq) && has_words(units, at, seq)),
{
    let none = Words { ptr: None, cap: None, len: None };
    lemma_open_word_found(units, at, 0, none, 0, Word::Pointer);
    lemma_open_word_found(units, at, 0, none, 0, Word::Capacity);
    lemma_open_word_found(units, at, 0, none, 0, Word::Length);
    lemma_has_words(units, at);
}

/// Whether a subprogram's name begins as one that builds maps but ends at its bracket.
pub open spec fn breaks_off(es: Seq<Entry>, i: int, prefix: Seq<char>) -> bool {
    &&& 0 <= i < es.len()
    &&& es[i].tag == 0x2e
    &&& crate::text::begins(title(es, es[i].offset), prefix)
    &&& title(es, es[i].offset).len() > 0
    &&& title(es, es[i].offset).last() == '<'
}

/// Whether looking for a function that builds maps ends at an entry.
spec fn ends_search(es: Seq<Entry>, i: int, slide: u64, prefix: Seq<char>, v: Option<Seq<char>>) -> bool {
    ||| breaks_off(es, i, prefix)
    ||| is_builder(es, i, prefix, v) && (attr_of(es[i], 0x11) matches Some(Attr::Addr(lo)) && lo + slide > u64::MAX)
}

proof fn lemma_build_fails(unit: Unit, slide: u64, prefix: Seq<char>, v_name: Seq<char>, match_v: bool, k: nat)
    ensures
        crate::tramp::tramp_in(unit, slide, prefix, v_name, match_v, k) is Err ==> exists|i: int|
            k <= i < unit.dies().len() && #[trigger] ends_search(
                unit.dies(),
                i,
                slide,
                prefix,
                wanted(v_name, match_v),
            ),
    decreases unit.dies().len() - k,
{
    let es = unit.dies();
    let v = wanted(v_name, match_v);
    if k < es.len() {
        let e = es[k as int];
        let name = title(es, e.offset);
        lemma_builds(name, prefix, v_name, match_v);
        lemma_open_angle(name, 0);
        lemma_build_fails(unit, slide, prefix, v_name, match_v, k + 1);
        if crate::tramp::tramp_in(unit, slide, prefix, v_name, match_v, k) is Err {
            if crate::tramp::tramp_in(unit, slide, prefix, v_name, match_v, k + 1) is Err {
                let i = choose|i: int| k + 1 <= i < es.len() && #[trigger] ends_search(es, i, slide, prefix, v);
                assert(ends_search(es, i, slide, prefix, v));
            } else {
                assert(label(unit, e.offset) == name);
                assert(ends_search(es, k as int, slide, prefix, v));
            }
        }
    }
}

proof fn lemma_build_found(
    units: Seq<Unit>,
    slide: u64,
    prefix: Seq<char>,
    v_name: Seq<char>,
    match_v: bool,
    ui: nat,
    to: int,
    at: int,
)
    requires
        ui <= to < units.len(),
        builder_at(units, to, at, prefix, wanted(v_name, match_v)),
        forall|u: int, i: int| 0 <= u < units.len() ==> !(#[trigger] breaks_off(units[u].dies(), i, prefix)),
        forall|u: int, i: int| #[trigger]
            builder_at(units, u, i, prefix, wanted(v_name, match_v)) ==> (attr_of(units[u].dies()[i], 0x11) matches Some(
                Attr::Addr(lo),
            ) && lo + slide <= u64::MAX),
    ensures
        crate::tramp::tramp_from(units, slide, prefix, v_name, match_v, ui) matches Ok(Some(_)),
    decreases to - ui,
{
    let v = wanted(v_name, match_v);
    let unit = units[ui as int];
    let es = unit.dies();
    lemma_build_fails(unit, slide, prefix, v_name, match_v, 0);
    lemma_built_in(unit, slide, prefix, v_name, match_v, 0);
    match crate::tramp::tramp_in(unit, slide, prefix, v_name, match_v, 0) {
        Err(f) => {
            let i = choose|i: int| 0 <= i < es.len() && #[trigger] ends_search(es, i, slide, prefix, v);
            assert(ends_search(es, i, slide, prefix, v));
            assert(!breaks_off(units[ui as int].dies(), i, prefix));
            assert(builder_at(units, ui as int, i, prefix, v));
        },
        Ok(Some(a)) => {},
        Ok(None) => {
            if ui == to {
                assert(!is_builder(es, at, prefix, v));
            } else {
                lemma_build_found(units, slide, prefix, v_name, match_v, ui + 1, to, at);
            }
        },
    }
}

/// Wherever a subprogram builds such maps, one is found, as long as none of their names
/// ends at its bracket and all of their addresses stay within 64 bits.
pub proof fn law_builder_that_is_there_is_found(
    units: Seq<Unit>,
    slide: u64,
    prefix: Seq<char>,
    v_name: Seq<char>,
    match_v: bool,
    ui: int,
    i: int,
)
    requires
        builder_at(
            units,
            ui,
            i,
            prefix,
            wanted(v_name, match_v),
        ),
        forall|u: int, j: int| 0 <= u < units.len() ==> !(#[trigger] breaks_off(units[u].dies(), j, prefix)),
        forall|u: int, j: int| #[trigger]
            builder_at(
                units,
                u,
                j,
                prefix,
                wanted(v_name, match_v),
            ) ==> (attr_of(units[u].dies()[j], 0x11) matches Some(Attr::Addr(lo)) && lo + slide <= u64::MAX),
    ensures
        trampoline(units, slide, prefix, v_name, match_v) is Ok,
{
    lemma_build_found(units, slide, prefix, v_name, match_v, 0, ui, i);
}

// ---------------------------------------------------------------------------
// Types that can be read have a layout.
// ---------------------------------------------------------------------------

/// Whether the walk over each unit came to its end.
pub open spec fn all_whole(units: Seq<Unit>) -> bool {
    forall|k: int| 0 <= k < units.len() ==> (#[trigger] units[k]).whole()
}

/// Whether a type of a size has an alignment: one is given, or a power of two that is
/// not below the size takes at most 64 bits.
pub open spec fn can_align(es: Seq<Entry>, off: usize, size: u64) -> bool {
    udata_of(es, off, 0x88) is Some || size <= 0x8000_0000_0000_0000
}

/// Whether a type can be read, with types in it at most so deep.
pub open spec fn is_readable(units: Seq<Unit>, slide: u64, site: Site, n: nat) -> bool
    decreases n, 1nat,
{
    exists|at: Site, k: nat| #[trigger]
        leads(units, site, at, k) && k <= size_of(units) && are_readable(units, slide, at, n)
}

/// Whether what is in a type can be read.
pub open spec fn are_readable(units: Seq<Unit>, slide: u64, at: Site, n: nat) -> bool
    decreases n, 0nat,
{
    let es = units[at.unit as int].dies();
    let i = spot(es, at.off);
    let name = title(es, at.off);
    n > 0 && if es[i].tag == 0x0f {
        type_of(es, at.off) matches Some(t) ==> {
            &&& is_readable(units, slide, (Site { unit: at.unit, off: t }), (n - 1) as nat)
            &&& stripped(es, t) matches Ok(to) && can_align(es, to, given(es, to, 0x0b, 0))
        }
    } else if es[i].tag == 0x13 {
        if name == "String"@ {
            crate::classify::seq_layout_at(units, at) is Ok
        } else if name == "&str"@ {
            true
        } else if crate::text::begins(name, "Vec<"@) {
            &&& crate::classify::seq_layout_at(units, at) is Ok
            &&& exists|t: usize| #[trigger]
                is_parameter(es, at.off, None, t) && is_readable(
                    units,
                    slide,
                    (Site { unit: at.unit, off: t }),
                    (n - 1) as nat,
                ) && (stripped(es, t) matches Ok(to) && can_align(es, to, given(es, to, 0x0b, 1)))
        } else if crate::text::begins(name, "BTreeMap<"@) {
            exists|k: usize, v: usize|
                {
                    &&& #[trigger] is_parameter(es, at.off, Some("K"@), k)
                    &&& #[trigger] is_parameter(es, at.off, Some("V"@), v)
                    &&& is_readable(units, slide, (Site { unit: at.unit, off: k }), (n - 1) as nat)
                    &&& is_readable(units, slide, (Site { unit: at.unit, off: v }), (n - 1) as nat)
                    &&& stripped(es, k) is Ok
                    &&& stripped(es, v) is Ok
                    &&& trampoline(units, slide, "map_new_at"@, title(es, v), false) is Ok
                    &&& trampoline(units, slide, "map_insert"@, title(es, v), true) is Ok
                }
        } else if exists|c: int| #[trigger] is_such_child(es, i, c, 0x33, None) {
            forall|vp: int| #[trigger]
                is_first(es, i, vp, 0x33, None) ==> {
                    &&& attr_of(es[vp], 0x15) matches Some(Attr::UnitRef(dm)) ==> (type_of(es, dm) matches Some(t)
                        ==> stripped(es, t) is Ok)
                    &&& forall|v: int, pm: int|
                        #[trigger] is_child(es, vp, v) && es[v].tag == 0x19 && #[trigger] is_first(es, v, pm, 0x0d, None)
                            ==> (type_of(es, es[pm].offset) matches Some(p) ==> stripped(es, p) is Ok)
                    &&& forall|v: int, pm: int, f0: int, t: usize|
                        is_child(es, vp, v) && #[trigger] is_full_variant(es, v, pm, f0, t) ==> is_readable(
                            units,
                            slide,
                            (Site { unit: at.unit, off: t }),
                            (n - 1) as nat,
                        ) && lies(es, es[pm].offset) + lies(es, es[f0].offset) <= usize::MAX
                }
        } else {
            forall|m: int| #[trigger]
                is_such_child(es, i, m, 0x0d, None) ==> (type_of(es, es[m].offset) matches Some(t) ==> is_readable(
                    units,
                    slide,
                    (Site { unit: at.unit, off: t }),
                    (n - 1) as nat,
                ))
        }
    } else {
        true
    }
}

proof fn lemma_parameter_back(unit: Unit, off: usize, name: Option<Seq<char>>, t: usize)
    requires
        ascending(unit.dies()),
        unit.whole(),
        index_of(unit.dies(), off) is Some,
        is_parameter(unit.dies(), off, name, t),
    ensures
        crate::die::param_of(unit, off, name) == Ok::<Option<usize>, Fault>(Some(t)),
{
    let es = unit.dies();
    let p = spot(es, off);
    crate::tree::law_child_found_is_first(unit, off, 0x2f, name);
    lemma_first(unit, off, 0x2f, name);
    let c = choose|c: int| #[trigger] is_first(es, p, c, 0x2f, name) && type_of(es, es[c].offset) == Some(t);
    assert(is_such_child(es, p, c, 0x2f, name));
    if let Ok(Some(d)) = crate::die::child_where(unit, off, 0x2f, name) {
        lemma_one_first(es, p, c, spot(es, d), 0x2f, name);
    }
}

proof fn lemma_can_align(unit: Unit, off: usize, size: u64)
    requires
        can_align(unit.dies(), off, size),
    ensures
        align_at(unit, off, size) is Ok,
{
    crate::arith::law_least_pow2_is_least(
        if size == 0 {
            1
        } else {
            size
        },
    );
}

proof fn lemma_layout_ok(units: Seq<Unit>, slide: u64, site: Site, memo: Seq<Site>, hops: nat, at: Site, k: nat, n: nat)
    requires
        all_ascending(units),
        all_whole(units),
        leads(units, site, at, k),
        k <= hops,
        are_readable(units, slide, at, n),
        memo.len() + n <= size_of(units) + 1,
    ensures
        layout_of(units, slide, site, memo, hops) is Ok,
    decreases n, k, 2nat, 0nat,
{
    let off = stripped(units[site.unit as int].dies(), site.off)->Ok_0;
    let def = crate::index::site_of(units, Site { unit: site.unit, off })->Ok_0;
    let unit = units[def.unit as int];
    let es = unit.dies();
    let name = label(unit, def.off);
    let t = crate::die::tag_of(es, def.off)->0;
    if k > 0 {
        let u = choose|u: usize| #[trigger]
            is_parameter(es, def.off, None, u) && leads(units, Site { unit: def.unit, off: u }, at, (k - 1) as nat);
        lemma_parameter_back(unit, def.off, None, u);
        lemma_layout_ok(
            units,
            slide,
            Site { unit: def.unit, off: u },
            memo,
            (hops - 1) as nat,
            at,
            (k - 1) as nat,
            n,
        );
    } else if !memo.contains(def) {
        let inside = memo.push(def);
        if t == 0x0f {
            lemma_boxed_ok(units, slide, def, name, inside, n);
        } else if t == 0x13 {
            lemma_struct_ok(units, slide, def, name, inside, n);
        }
    }
}

proof fn lemma_part_ok(units: Seq<Unit>, slide: u64, ui: usize, off: usize, memo: Seq<Site>, n: nat)
    requires
        all_ascending(units),
        all_whole(units),
        is_readable(units, slide, (Site { unit: ui, off }), n),
        memo.len() + n <= size_of(units) + 1,
    ensures
        part_layout(units, slide, ui, off, memo) is Ok,
    decreases n, size_of(units) + 1, 0nat, 0nat,
{
    let site = Site { unit: ui, off };
    let (at, k) = choose|at: Site, k: nat| #[trigger]
        leads(units, site, at, k) && k <= size_of(units) && are_readable(units, slide, at, n);
    lemma_layout_ok(units, slide, site, memo, size_of(units), at, k, n);
}

proof fn lemma_boxed_ok(units: Seq<Unit>, slide: u64, def: Site, name: Seq<char>, memo: Seq<Site>, n: nat)
    requires
        all_ascending(units),
        all_whole(units),
        are_readable(units, slide, def, n),
        units[def.unit as int].dies()[spot(units[def.unit as int].dies(), def.off)].tag == 0x0f,
        memo.len() + n <= size_of(units) + 2,
    ensures
        boxed_layout(units, slide, def, name, memo) is Ok,
    decreases n, 0nat, 0nat, 0nat,
{
    let unit = units[def.unit as int];
    if let Some(t) = type_of(unit.dies(), def.off) {
        lemma_part_ok(units, slide, def.unit, t, memo, (n - 1) as nat);
        let to = stripped(unit.dies(), t)->Ok_0;
        lemma_can_align(unit, to, given(unit.dies(), to, 0x0b, 0));
    }
}

#[verifier::spinoff_prover]
#[verifier::rlimit(40)]
proof fn lemma_struct_ok(units: Seq<Unit>, slide: u64, def: Site, name: Seq<char>, memo: Seq<Site>, n: nat)
    requires
        all_ascending(units),
        all_whole(units),
        def.unit < units.len(),
        index_of(units[def.unit as int].dies(), def.off) is Some,
        are_readable(units, slide, def, n),
        units[def.unit as int].dies()[spot(units[def.unit as int].dies(), def.off)].tag == 0x13,
        name == title(units[def.unit as int].dies(), def.off),
        memo.len() + n <= size_of(units) + 2,
    ensures
        struct_layout(units, slide, def, name, memo) is Ok,
    decreases n, 0nat, 1nat, 0nat,
{
    let unit = units[def.unit as int];
    let es = unit.dies();
    let i = spot(es, def.off);
    assert(crate::die::children(unit, def.off) is Ok) by {
        crate::tree::law_children_are_what_stands_under(unit, def.off);
    }
    if name == "String"@ || name == "&str"@ {
    } else if crate::text::begins(name, "Vec<"@) {
        lemma_vec_ok(units, slide, def, memo, n);
    } else if crate::text::begins(name, "BTreeMap<"@) {
        lemma_map_ok(units, slide, def, memo, n);
    } else {
        assert(crate::die::child_where(unit, def.off, 0x33, None) is Ok) by {
            crate::tree::law_child_found_is_first(unit, def.off, 0x33, None);
        }
        lemma_first(unit, def.off, 0x33, None);
        match crate::die::child_where(unit, def.off, 0x33, None) {
            Err(f) => {},
            Ok(Some(vp)) => {
                lemma_option_ok(units, slide, def, vp, name, memo, n);
            },
            Ok(None) => {
                lemma_record_ok(units, slide, def, memo, n);
            },
        }
    }
}

proof fn lemma_vec_ok(units: Seq<Unit>, slide: u64, def: Site, memo: Seq<Site>, n: nat)
    requires
        all_ascending(units),
        all_whole(units),
        def.unit < units.len(),
        index_of(units[def.unit as int].dies(), def.off) is Some,
        are_readable(units, slide, def, n),
        units[def.unit as int].dies()[spot(units[def.unit as int].dies(), def.off)].tag == 0x13,
        title(units[def.unit as int].dies(), def.off) != "String"@,
        title(units[def.unit as int].dies(), def.off) != "&str"@,
        crate::text::begins(title(units[def.unit as int].dies(), def.off), "Vec<"@),
        memo.len() + n <= size_of(units) + 2,
    ensures
        vec_layout(units, slide, def, memo) is Ok,
    decreases n, 0nat, 0nat, 0nat,
{
    let unit = units[def.unit as int];
    let es = unit.dies();
    let t = choose|t: usize| #[trigger]
        is_parameter(es, def.off, None, t) && is_readable(
            units,
            slide,
            (Site { unit: def.unit, off: t }),
            (n - 1) as nat,
        ) && (stripped(es, t) matches Ok(to) && can_align(es, to, given(es, to, 0x0b, 1)));
    lemma_parameter_back(unit, def.off, None, t);
    lemma_part_ok(units, slide, def.unit, t, memo, (n - 1) as nat);
    let to = stripped(es, t)->Ok_0;
    lemma_can_align(unit, to, given(es, to, 0x0b, 1));
}

proof fn lemma_map_ok(units: Seq<Unit>, slide: u64, def: Site, memo: Seq<Site>, n: nat)
    requires
        all_ascending(units),
        all_whole(units),
        def.unit < units.len(),
        index_of(units[def.unit as int].dies(), def.off) is Some,
        are_readable(units, slide, def, n),
        units[def.unit as int].dies()[spot(units[def.unit as int].dies(), def.off)].tag == 0x13,
        title(units[def.unit as int].dies(), def.off) != "String"@,
        title(units[def.unit as int].dies(), def.off) != "&str"@,
        !crate::text::begins(title(units[def.unit as int].dies(), def.off), "Vec<"@),
        crate::text::begins(title(units[def.unit as int].dies(), def.off), "BTreeMap<"@),
        memo.len() + n <= size_of(units) + 2,
    ensures
        map_layout(units, slide, def, memo) is Ok,
    decreases n, 0nat, 0nat, 0nat,
{
    let unit = units[def.unit as int];
    let es = unit.dies();
    let (k, v) = choose|k: usize, v: usize|
        {
            &&& #[trigger] is_parameter(es, def.off, Some("K"@), k)
            &&& #[trigger] is_parameter(es, def.off, Some("V"@), v)
            &&& is_readable(units, slide, (Site { unit: def.unit, off: k }), (n - 1) as nat)
            &&& is_readable(units, slide, (Site { unit: def.unit, off: v }), (n - 1) as nat)
            &&& stripped(es, k) is Ok
            &&& stripped(es, v) is Ok
            &&& trampoline(units, slide, "map_new_at"@, title(es, v), false) is Ok
            &&& trampoline(units, slide, "map_insert"@, title(es, v), true) is Ok
        };
    lemma_parameter_back(unit, def.off, Some("K"@), k);
    lemma_parameter_back(unit, def.off, Some("V"@), v);
    lemma_part_ok(units, slide, def.unit, k, memo, (n - 1) as nat);
    lemma_part_ok(units, slide, def.unit, v, memo, (n - 1) as nat);
}

proof fn lemma_record_ok(units: Seq<Unit>, slide: u64, def: Site, memo: Seq<Site>, n: nat)
    requires
        all_ascending(units),
        all_whole(units),
        def.unit < units.len(),
        index_of(units[def.unit as int].dies(), def.off) is Some,
        are_readable(units, slide, def, n),
        units[def.unit as int].dies()[spot(units[def.unit as int].dies(), def.off)].tag == 0x13,
        !is_known_struct(title(units[def.unit as int].dies(), def.off)),
        forall|b: int|
            !(#[trigger] is_such_child(
                units[def.unit as int].dies(),
                spot(units[def.unit as int].dies(), def.off),
                b,
                0x33,
                None,
            )),
        memo.len() + n <= size_of(units) + 2,
    ensures
        crate::die::children(units[def.unit as int], def.off) matches Ok(kids) && fields_among(
            units,
            slide,
            def.unit,
            kids,
            0,
            memo,
        ) is Ok,
    decreases n, 0nat, 0nat, 0nat,
{
    let unit = units[def.unit as int];
    let es = unit.dies();
    let i = spot(es, def.off);
    crate::tree::law_children_are_what_stands_under(unit, def.off);
    let kids = crate::die::children(unit, def.off)->Ok_0;
    assert forall|j: int| 0 <= j < kids.len() implies kid_is_readable(
        units,
        slide,
        def.unit,
        #[trigger] kids[j],
        (n - 1) as nat,
    ) by {
        let m = spot(es, kids[j]);
        assert(is_child(es, i, m));
        if es[m].tag == 0x0d {
            assert(is_such_child(es, i, m, 0x0d, None));
        }
    }
    lemma_fields_ok(units, slide, def.unit, kids, 0, memo, (n - 1) as nat);
}

/// Whether the type of a child can be read, where it is a member.
spec fn kid_is_readable(units: Seq<Unit>, slide: u64, ui: usize, m: usize, n: nat) -> bool {
    let es = units[ui as int].dies();
    crate::die::tag_of(es, m) == Some(0x0du16) ==> (type_of(es, m) matches Some(t) ==> is_readable(
        units,
        slide,
        (Site { unit: ui, off: t }),
        n,
    ))
}

proof fn lemma_fields_ok(units: Seq<Unit>, slide: u64, ui: usize, kids: Seq<usize>, k: nat, memo: Seq<Site>, n: nat)
    requires
        all_ascending(units),
        all_whole(units),
        memo.len() + n <= size_of(units) + 1,
        forall|j: int| 0 <= j < kids.len() ==> kid_is_readable(units, slide, ui, #[trigger] kids[j], n),
    ensures
        fields_among(units, slide, ui, kids, k, memo) is Ok,
    decreases n, size_of(units) + 2, 0nat, kids.len() - k,
{
    if k < kids.len() {
        let es = units[ui as int].dies();
        assert(kid_is_readable(units, slide, ui, kids[k as int], n));
        lemma_fields_ok(units, slide, ui, kids, k + 1, memo, n);
        if crate::die::tag_of(es, kids[k as int]) == Some(0x0du16) {
            if let Some(t) = type_of(es, kids[k as int]) {
                lemma_part_ok(units, slide, ui, t, memo, n);
            }
        }
    }
}

/// Whether what is in a child can be read, where it is a variant.
spec fn variant_is_readable(units: Seq<Unit>, slide: u64, ui: usize, at: int, n: nat) -> bool {
    let es = units[ui as int].dies();
    &&& forall|pm: int|
        es[at].tag == 0x19 && #[trigger] is_first(es, at, pm, 0x0d, None) ==> (type_of(es, es[pm].offset) matches Some(p)
            ==> stripped(es, p) is Ok)
    &&& forall|pm: int, f0: int, t: usize| #[trigger]
        is_full_variant(es, at, pm, f0, t) ==> is_readable(units, slide, (Site { unit: ui, off: t }), n) && lies(
            es,
            es[pm].offset,
        ) + lies(es, es[f0].offset) <= usize::MAX
}

#[verifier::spinoff_prover]
#[verifier::rlimit(40)]
proof fn lemma_variant_ok(units: Seq<Unit>, slide: u64, ui: usize, v: usize, before: Variants, memo: Seq<Site>, n: nat)
    requires
        all_ascending(units),
        all_whole(units),
        ui < units.len(),
        index_of(units[ui as int].dies(), v) is Some,
        variant_is_readable(units, slide, ui, spot(units[ui as int].dies(), v), n),
        memo.len() + n <= size_of(units) + 1,
    ensures
        variant_at(units, slide, ui, v, before, memo) is Ok,
    decreases n, size_of(units) + 2, 0nat, 0nat,
{
    let unit = units[ui as int];
    let es = unit.dies();
    let at = spot(es, v);
    assert(es[at].offset == v);
    if crate::die::tag_of(es, v) == Some(0x19u16) {
        crate::tree::law_child_found_is_first(unit, v, 0x0d, None);
        lemma_first(unit, v, 0x0d, None);
        if let Ok(Some(pm)) = crate::die::child_where(unit, v, 0x0d, None) {
            let m = spot(es, pm);
            assert(is_first(es, at, m, 0x0d, None));
            if let Some(p) = type_of(es, pm) {
                let payload = stripped(es, p)->Ok_0;
                lemma_stripped_there(es, p, payload);
                crate::tree::law_child_found_is_first(unit, payload, 0x0d, Some("__0"@));
                lemma_first(unit, payload, 0x0d, Some("__0"@));
                if let Ok(Some(f0)) = crate::die::child_where(unit, payload, 0x0d, Some("__0"@)) {
                    let fm = spot(es, f0);
                    if let Some(t) = type_of(es, f0) {
                        assert(is_full_variant(es, at, m, fm, t));
                        lemma_part_ok(units, slide, ui, t, memo, n);
                    }
                }
            }
        }
    }
}

proof fn lemma_variants_ok(
    units: Seq<Unit>,
    slide: u64,
    ui: usize,
    kids: Seq<usize>,
    k: nat,
    before: Variants,
    memo: Seq<Site>,
    n: nat,
)
    requires
        all_ascending(units),
        all_whole(units),
        ui < units.len(),
        memo.len() + n <= size_of(units) + 1,
        forall|j: int|
            0 <= j < kids.len() ==> index_of(units[ui as int].dies(), #[trigger] kids[j]) is Some && variant_is_readable(
                units,
                slide,
                ui,
                spot(units[ui as int].dies(), kids[j]),
                n,
            ),
    ensures
        variants_among(units, slide, ui, kids, k, before, memo) is Ok,
    decreases n, size_of(units) + 2, 1nat, kids.len() - k,
{
    if k < kids.len() {
        assert(index_of(units[ui as int].dies(), kids[k as int]) is Some);
        lemma_variant_ok(units, slide, ui, kids[k as int], before, memo, n);
        let now = variant_at(units, slide, ui, kids[k as int], before, memo)->Ok_0;
        lemma_variants_ok(units, slide, ui, kids, k + 1, now, memo, n);
    }
}

#[verifier::spinoff_prover]
#[verifier::rlimit(40)]
proof fn lemma_option_ok(units: Seq<Unit>, slide: u64, def: Site, vp: usize, name: Seq<char>, memo: Seq<Site>, n: nat)
    requires
        all_ascending(units),
        all_whole(units),
        def.unit < units.len(),
        index_of(units[def.unit as int].dies(), vp) is Some,
        is_first(
            units[def.unit as int].dies(),
            spot(units[def.unit as int].dies(), def.off),
            spot(units[def.unit as int].dies(), vp),
            0x33,
            None,
        ),
        !is_known_struct(title(units[def.unit as int].dies(), def.off)),
        units[def.unit as int].dies()[spot(units[def.unit as int].dies(), def.off)].tag == 0x13,
        are_readable(units, slide, def, n),
        memo.len() + n <= size_of(units) + 2,
    ensures
        option_layout(units, slide, def, vp, name, memo) is Ok,
    decreases n, 0nat, 0nat, 0nat,
{
    let unit = units[def.unit as int];
    let es = unit.dies();
    let i = spot(es, def.off);
    let p = spot(es, vp);
    let less = (n - 1) as nat;
    assert(is_such_child(es, i, p, 0x33, None));
    assert(is_first(es, i, p, 0x33, None));
    crate::tree::law_children_are_what_stands_under(unit, vp);
    let kids = crate::die::children(unit, vp)->Ok_0;
    assert forall|j: int| 0 <= j < kids.len() implies index_of(es, #[trigger] kids[j]) is Some && variant_is_readable(
        units,
        slide,
        def.unit,
        spot(es, kids[j]),
        less,
    ) by {
        let v = spot(es, kids[j]);
        assert(is_child(es, p, v));
        assert forall|pm: int| es[v].tag == 0x19 && #[trigger] is_first(es, v, pm, 0x0d, None) implies (type_of(
            es,
            es[pm].offset,
        ) matches Some(q) ==> stripped(es, q) is Ok) by {}
    }
    lemma_variants_ok(units, slide, def.unit, kids, 0, Variants { none: None, some: None }, memo, less);
}

/// A type that can be read has a layout, and the layout is what its entries give: where
/// the walk over every unit came to its end, every type in it is an entry, has a
/// parameter where it needs one, and has an alignment, a `Vec` has its words and a map its
/// functions, and no more types lie in one another than there are entries.
pub proof fn law_readable_type_has_a_layout(units: Seq<Unit>, slide: u64, site: Site, n: nat)
    requires
        all_ascending(units),
        all_whole(units),
        is_readable(units, slide, site, n),
        n <= size_of(units) + 1,
    ensures
        classified(units, slide, site) matches Ok(ty) && describes(units, slide, site, ty),
{
    let (at, k) = choose|at: Site, k: nat| #[trigger]
        leads(units, site, at, k) && k <= size_of(units) && are_readable(units, slide, at, n);
    lemma_layout_ok(units, slide, site, Seq::empty(), size_of(units), at, k, n);
    law_layout_is_described(units, slide, site);
}

// ---------------------------------------------------------------------------
// Words that are found stay, and only types that refer to themselves are marked.
// ---------------------------------------------------------------------------

/// A word of a `Vec`-like type that has been found stays where it was found, whatever
/// comes after: of several, the first is taken.
pub proof fn law_first_word_is_kept(units: Seq<Unit>, site: Site, base: usize, w: Words, depth: nat)
    ensures
        words_in(units, site, base, w, depth) matches Ok(r) ==> {
            &&& w.ptr is Some ==> r.ptr == w.ptr
            &&& w.cap is Some ==> r.cap == w.cap
            &&& w.len is Some ==> r.len == w.len
        },
    decreases MAX_WORD_DEPTH + 1 - depth, 1nat, 0nat,
{
    if depth <= MAX_WORD_DEPTH {
        if let Ok(r) = words_in(units, site, base, w, depth) {
            let off = stripped(units[site.unit as int].dies(), site.off)->Ok_0;
            let def = crate::index::site_of(units, Site { unit: site.unit, off })->Ok_0;
            if let Ok(kids) = crate::die::children(units[def.unit as int], def.off) {
                lemma_words_kept(units, def.unit, kids, 0, base, w, depth);
            }
        }
    }
}

proof fn lemma_words_kept(units: Seq<Unit>, ui: usize, kids: Seq<usize>, k: nat, base: usize, w: Words, depth: nat)
    ensures
        words_among(units, ui, kids, k, base, w, depth) matches Ok(r) ==> {
            &&& w.ptr is Some ==> r.ptr == w.ptr
            &&& w.cap is Some ==> r.cap == w.cap
            &&& w.len is Some ==> r.len == w.len
        },
    decreases MAX_WORD_DEPTH + 1 - depth, 0nat, kids.len() - k,
{
    if k < kids.len() && depth <= MAX_WORD_DEPTH && ui < units.len() {
        if let Ok(r) = words_among(units, ui, kids, k, base, w, depth) {
            let es = units[ui as int].dies();
            let m = kids[k as int];
            let then = words_then(units, ui, m, base, w, depth);
            if let Some(t) = type_of(es, m) {
                law_first_word_is_kept(units, Site { unit: ui, off: t }, (base + lies(es, m)) as usize, w, depth + 1);
            }
            assert(words_among(units, ui, kids, k + 1, base, then, depth) == Ok::<Words, Fault>(r));
            lemma_words_kept(units, ui, kids, k + 1, base, then, depth);
        }
    }
}

/// Whether every type in a type that is marked as referring to itself does.
pub open spec fn all_marked(ty: TyV) -> bool {
    forall|site: Site, body: Box<TyV>, n: nat| #[trigger]
        crate::plan::is_in((TyV::Rec { site, body }), ty, n) ==> refers(*body, site)
}

/// Whether a type refers to the type at a site.
pub open spec fn refers(ty: TyV, site: Site) -> bool {
    exists|n: nat| #[trigger] crate::plan::is_in(TyV::Ref(site), ty, n)
}

proof fn lemma_marked(ty: TyV)
    requires
        forall|p: TyV| #[trigger] crate::plan::is_part(p, ty) ==> all_marked(p),
        ty matches TyV::Rec { site, body } ==> refers(*body, site),
    ensures
        all_marked(ty),
{
    assert forall|site: Site, body: Box<TyV>, n: nat| #[trigger]
        crate::plan::is_in((TyV::Rec { site, body }), ty, n) implies refers(*body, site) by {
        if n > 0 {
            let p = choose|p: TyV| #[trigger]
                crate::plan::is_part(p, ty) && crate::plan::is_in((TyV::Rec { site, body }), p, (n - 1) as nat);
            assert(all_marked(p));
        }
    }
}

proof fn lemma_refers_through(ty: TyV, p: TyV, site: Site)
    requires
        crate::plan::is_part(p, ty),
        refers(p, site),
    ensures
        refers(ty, site),
{
    let n = choose|n: nat| #[trigger] crate::plan::is_in(TyV::Ref(site), p, n);
    assert(crate::plan::is_in(TyV::Ref(site), ty, n + 1));
}

proof fn lemma_mentions(ty: TyV, site: Site)
    requires
        crate::plan::mentions(ty, site),
    ensures
        refers(ty, site),
    decreases ty, 0nat,
{
    match ty {
        TyV::Struct { name, fields } => {
            let k = lemma_mentions_field(fields, fields.len(), site);
            assert(crate::plan::is_part(fields[k].ty, ty));
            lemma_refers_through(ty, fields[k].ty, site);
        },
        TyV::Tuple { fields } => {
            let k = lemma_mentions_field(fields, fields.len(), site);
            assert(crate::plan::is_part(fields[k].ty, ty));
            lemma_refers_through(ty, fields[k].ty, site);
        },
        TyV::Vec { elem, .. } => {
            lemma_mentions(*elem, site);
            lemma_refers_through(ty, *elem, site);
        },
        TyV::Opt { inner, .. } => {
            lemma_mentions(*inner, site);
            lemma_refers_through(ty, *inner, site);
        },
        TyV::BTreeMap { key, val, .. } => {
            if crate::plan::mentions(*key, site) {
                lemma_mentions(*key, site);
                lemma_refers_through(ty, *key, site);
            } else {
                lemma_mentions(*val, site);
                lemma_refers_through(ty, *val, site);
            }
        },
        TyV::Boxed { inner, .. } => {
            lemma_mentions(*inner, site);
            lemma_refers_through(ty, *inner, site);
        },
        TyV::Rec { site: s, body } => {
            lemma_mentions(*body, site);
            lemma_refers_through(ty, *body, site);
        },
        _ => {
            assert(crate::plan::is_in(TyV::Ref(site), ty, 0));
        },
    }
}

proof fn lemma_mentions_field(fields: Seq<FieldV>, n: nat, site: Site) -> (k: int)
    requires
        crate::plan::any_mentions(fields, n, site),
    ensures
        0 <= k < fields.len(),
        refers(fields[k].ty, site),
    decreases fields, n,
{
    if crate::plan::mentions(fields[n - 1].ty, site) {
        lemma_mentions(fields[n - 1].ty, site);
        n - 1
    } else {
        lemma_mentions_field(fields, (n - 1) as nat, site)
    }
}

proof fn lemma_layout_marked(units: Seq<Unit>, slide: u64, site: Site, memo: Seq<Site>, hops: nat)
    ensures
        layout_of(units, slide, site, memo, hops) matches Ok(ty) ==> all_marked(ty),
    decreases size_of(units) + 1 - memo.len(), hops, 2nat, 0nat,
{
    if let Ok(ty) = layout_of(units, slide, site, memo, hops) {
        let unit = unit_at(units, site.unit)->0;
        let off = stripped(unit.dies(), site.off)->Ok_0;
        let def = crate::index::site_of(units, Site { unit: site.unit, off })->Ok_0;
        let unit = unit_at(units, def.unit)->0;
        let name = label(unit, def.off);
        let t = crate::die::tag_of(unit.dies(), def.off)->0;
        if crate::classify::is_transparent(name) {
            let inner = crate::die::param_of(unit, def.off, None)->Ok_0->0;
            lemma_layout_marked(units, slide, Site { unit: def.unit, off: inner }, memo, (hops - 1) as nat);
        } else if memo.contains(def) {
            lemma_marked(ty);
        } else {
            let inside = memo.push(def);
            let body = if t == 0x24 {
                base_layout(unit, def.off, name)
            } else if t == 0x0f {
                boxed_layout(units, slide, def, name, inside)->Ok_0
            } else if t == 0x13 {
                struct_layout(units, slide, def, name, inside)->Ok_0
            } else if t == 0x04 {
                TyV::Unknown("enum "@ + name)
            } else {
                TyV::Unknown(name)
            };
            if t == 0x0f {
                lemma_boxed_marked(units, slide, def, name, inside);
            } else if t == 0x13 {
                lemma_struct_marked(units, slide, def, name, inside);
            } else {
                lemma_marked(body);
            }
            if crate::plan::mentions(body, def) {
                lemma_mentions(body, def);
                lemma_marked(TyV::Rec { site: def, body: Box::new(body) });
            }
        }
    }
}

proof fn lemma_part_marked(units: Seq<Unit>, slide: u64, ui: usize, off: usize, memo: Seq<Site>)
    ensures
        part_layout(units, slide, ui, off, memo) matches Ok(ty) ==> all_marked(ty),
    decreases size_of(units) + 1 - memo.len(), size_of(units), 3nat, 0nat,
{
    lemma_layout_marked(units, slide, Site { unit: ui, off }, memo, size_of(units));
}

proof fn lemma_boxed_marked(units: Seq<Unit>, slide: u64, def: Site, name: Seq<char>, memo: Seq<Site>)
    ensures
        boxed_layout(units, slide, def, name, memo) matches Ok(ty) ==> all_marked(ty),
    decreases size_of(units) + 1 - memo.len(), size_of(units) + 1, 0nat, 0nat,
{
    if let Ok(ty) = boxed_layout(units, slide, def, name, memo) {
        if let Some(pointee) = type_of(units[def.unit as int].dies(), def.off) {
            lemma_part_marked(units, slide, def.unit, pointee, memo);
        }
        lemma_marked(ty);
    }
}

proof fn lemma_struct_marked(units: Seq<Unit>, slide: u64, def: Site, name: Seq<char>, memo: Seq<Site>)
    ensures
        struct_layout(units, slide, def, name, memo) matches Ok(ty) ==> all_marked(ty),
    decreases size_of(units) + 1 - memo.len(), size_of(units) + 1, 2nat, 0nat,
{
    let unit = units[def.unit as int];
    if let Ok(ty) = struct_layout(units, slide, def, name, memo) {
        if name == "String"@ || name == "&str"@ {
            lemma_marked(ty);
        } else if crate::text::begins(name, "Vec<"@) {
            let t = crate::die::param_of(unit, def.off, None)->Ok_0->0;
            lemma_part_marked(units, slide, def.unit, t, memo);
            lemma_marked(ty);
        } else if crate::text::begins(name, "BTreeMap<"@) {
            let k = crate::die::param_of(unit, def.off, Some("K"@))->Ok_0->0;
            let v = crate::die::param_of(unit, def.off, Some("V"@))->Ok_0->0;
            lemma_part_marked(units, slide, def.unit, k, memo);
            lemma_part_marked(units, slide, def.unit, v, memo);
            lemma_marked(ty);
        } else {
            match crate::die::child_where(unit, def.off, 0x33, None) {
                Err(f) => {},
                Ok(Some(vp)) => {
                    if let Ok(kids) = crate::die::children(unit, vp) {
                        lemma_variants_marked(
                            units,
                            slide,
                            def.unit,
                            kids,
                            0,
                            Variants { none: None, some: None },
                            memo,
                        );
                    }
                    lemma_marked(ty);
                },
                Ok(None) => {
                    let kids = crate::die::children(unit, def.off)->Ok_0;
                    let fields = fields_among(units, slide, def.unit, kids, 0, memo)->Ok_0;
                    lemma_fields_marked(units, slide, def.unit, kids, 0, memo);
                    if crate::tuple::is_tuple(fields) {
                        let sorted = crate::tuple::by_position(fields, fields.len());
                        crate::tuple::law_fields_by_position(fields, fields.len());
                        assert(fields.take(fields.len() as int) =~= fields);
                        assert forall|i: int| 0 <= i < sorted.len() implies all_marked((#[trigger] sorted[i]).ty) by {
                            broadcast use vstd::seq_lib::group_to_multiset_ensures;

                            assert(sorted.contains(sorted[i]));
                            assert(sorted.to_multiset().count(sorted[i]) > 0);
                            assert(fields.contains(sorted[i]));
                            let j = choose|j: int| 0 <= j < fields.len() && fields[j] == sorted[i];
                            assert(all_marked(fields[j].ty));
                        }
                    }
                    lemma_marked(ty);
                },
            }
        }
    }
}

proof fn lemma_fields_marked(units: Seq<Unit>, slide: u64, ui: usize, kids: Seq<usize>, k: nat, memo: Seq<Site>)
    ensures
        fields_among(units, slide, ui, kids, k, memo) matches Ok(fields) ==> forall|i: int|
            0 <= i < fields.len() ==> all_marked((#[trigger] fields[i]).ty),
    decreases size_of(units) + 1 - memo.len(), size_of(units) + 1, 0nat, kids.len() - k,
{
    let es = units[ui as int].dies();
    if k < kids.len() {
        lemma_fields_marked(units, slide, ui, kids, k + 1, memo);
        lemma_marked(TyV::Unknown("?"@));
        if crate::die::tag_of(es, kids[k as int]) == Some(0x0du16) {
            if let Some(t) = type_of(es, kids[k as int]) {
                lemma_part_marked(units, slide, ui, t, memo);
            }
        }
    }
}

proof fn lemma_variants_marked(
    units: Seq<Unit>,
    slide: u64,
    ui: usize,
    kids: Seq<usize>,
    k: nat,
    before: Variants,
    memo: Seq<Site>,
)
    requires
        before.some matches Some((d, o, ty)) ==> all_marked(ty),
    ensures
        variants_among(units, slide, ui, kids, k, before, memo) matches Ok(vs) ==> (vs.some matches Some((d, o, ty))
            ==> all_marked(ty)),
    decreases size_of(units) + 1 - memo.len(), size_of(units) + 1, 0nat, kids.len() - k,
{
    if k < kids.len() {
        let unit = units[ui as int];
        let es = unit.dies();
        let v = kids[k as int];
        if let Ok(Some(pm)) = crate::die::child_where(unit, v, 0x0d, None) {
            if let Some(payload) = type_of(es, pm) {
                if let Ok(payload) = stripped(es, payload) {
                    if let Ok(Some(f0)) = crate::die::child_where(unit, payload, 0x0d, Some("__0"@)) {
                        if let Some(t) = type_of(es, f0) {
                            lemma_part_marked(units, slide, ui, t, memo);
                        }
                    }
                }
            }
        }
        if let Ok(now) = variant_at(units, slide, ui, v, before, memo) {
            lemma_variants_marked(units, slide, ui, kids, k + 1, now, memo);
        }
    }
}

/// Only types that refer to themselves are marked as such: inside every marked type in a
/// layout there is a back-edge to it.
pub proof fn law_marked_types_refer_to_themselves(units: Seq<Unit>, slide: u64, site: Site)
    ensures
        classified(units, slide, site) matches Ok(ty) ==> all_marked(ty),
{
    lemma_layout_marked(units, slide, site, Seq::empty(), size_of(units));
}

} // verus!
