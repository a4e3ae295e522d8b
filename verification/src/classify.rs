//! From a type's entry to its layout.
use crate::arith::next_power_of_two;
use crate::die::{
    attr_udata, attr_value, child_named, child_offsets, child_with_tag, die_name, entry, named,
    strip, tag, template_named, template_param, type_ref, udata, Attr, Entry, Fault, Unit,
    AT_ALIGNMENT, AT_BYTE_SIZE, AT_DATA_MEMBER_LOCATION, AT_DISCR, AT_ENCODING,
    TAG_BASE_TYPE, TAG_ENUMERATION_TYPE, TAG_MEMBER, TAG_POINTER_TYPE, TAG_STRUCTURE_TYPE,
    TAG_UNION_TYPE, TAG_VARIANT, TAG_VARIANT_PART,
};
use crate::index::{def_index, def_site, Def};
use crate::plan::{FieldTy, FieldV, SeqLayout, Site, Ty, TyV};
use crate::text::{joined, starts_with, str_eq};
use crate::tramp::resolve_tramp;
use vstd::prelude::*;
use vstd::string::*;

verus! {

pub const ATE_BOOLEAN: u8 = 0x02;

pub const ATE_FLOAT: u8 = 0x04;

pub const ATE_SIGNED: u8 = 0x05;

pub const ATE_SIGNED_CHAR: u8 = 0x06;

pub const ATE_UNSIGNED: u8 = 0x07;

pub const ATE_UNSIGNED_CHAR: u8 = 0x08;

pub const ATE_UTF: u8 = 0x10;

/// The debugging information of a program, with its index of definitions and
/// the distance between link-time and run-time addresses.
pub struct Store {
    units: Vec<Unit>,
    defs: Vec<Def>,
    slide: u64,
    size: u128,
}

/// How many entries the first `n` units hold.
pub open spec fn total(units: Seq<Unit>, n: nat) -> nat
    decreases n,
{
    if n == 0 || n > units.len() {
        0
    } else {
        total(units, (n - 1) as nat) + units[n - 1].dies().len()
    }
}

/// How many entries there are.
pub open spec fn size_of(units: Seq<Unit>) -> nat {
    total(units, units.len())
}

impl Store {
    pub closed spec fn all(&self) -> Seq<Unit> {
        self.units@
    }

    pub closed spec fn slid(&self) -> u64 {
        self.slide
    }

    #[verifier::type_invariant]
    spec fn indexed(self) -> bool {
        &&& crate::index::defs_view(self.defs@) == crate::index::all_defs(self.units@)
        &&& self.size == size_of(self.units@)
    }

    /// A store of those units.
    pub fn new(units: Vec<Unit>, slide: u64) -> (r: Store)
        ensures
            r.all() == units@,
            r.slid() == slide,
    {
        let defs: Vec<Def> = def_index(&units);
        let mut size: u128 = 0;
        let mut k: usize = 0;
        while k < units.len()
            invariant
                k <= units@.len(),
                size == total(units@, k as nat),
                size <= k * (usize::MAX as int),
            decreases units@.len() - k,
        {
            assert(k * (usize::MAX as int) + usize::MAX == (k + 1) * (usize::MAX as int))
                by (nonlinear_arith);
            assert((k + 1) * (usize::MAX as int) <= (usize::MAX as int) * (usize::MAX as int))
                by (nonlinear_arith)
                requires
                    k + 1 <= usize::MAX,
            ;
            assert((usize::MAX as int) * (usize::MAX as int) <= u128::MAX) by (nonlinear_arith)
                requires
                    0 <= usize::MAX <= 0xffff_ffff_ffff_ffff,
            ;
            size = size + units[k].entries().len() as u128;
            k = k + 1;
        }
        Store { units, defs, slide, size }
    }

    fn size(&self) -> (r: u128)
        ensures
            r == size_of(self.all()),
    {
        proof {
            use_type_invariant(self);
        }
        self.size
    }

    /// The units.
    pub fn units(&self) -> (r: &Vec<Unit>)
        ensures
            r@ == self.all(),
    {
        &self.units
    }

    /// The distance between link-time and run-time addresses.
    pub fn slide(&self) -> (r: u64)
        ensures
            r == self.slid(),
    {
        self.slide
    }

    fn site(&self, site: Site) -> (r: Result<Site, Fault>)
        ensures
            r == crate::index::site_of(self.all(), site),
    {
        proof {
            use_type_invariant(self);
        }
        def_site(&self.units, &self.defs, site)
    }

    fn unit(&self, k: usize) -> (r: Option<&Unit>)
        ensures
            match unit_at(self.all(), k) {
                Some(u) => r is Some && *r->0 == u,
                None => r is None,
            },
    {
        if k < self.units.len() {
            Some(&self.units[k])
        } else {
            None
        }
    }
}

/// The unit at a position.
pub open spec fn unit_at(units: Seq<Unit>, k: usize) -> Option<Unit> {
    if k < units.len() {
        Some(units[k as int])
    } else {
        None
    }
}

/// The name of an entry, or no text.
pub open spec fn label(unit: Unit, off: usize) -> Seq<char> {
    crate::locate::or_empty(crate::die::name_of(unit.dies(), off))
}

fn label_of(unit: &Unit, off: usize) -> (r: String)
    ensures
        r@ == label(*unit, off),
{
    match die_name(unit, off) {
        Some(s) => s.clone(),
        None => String::new(),
    }
}

/// The number that an attribute holds, or zero.
pub open spec fn number(unit: Unit, off: usize, at: u16, default: u64) -> u64 {
    match crate::die::udata_of(unit.dies(), off, at) {
        Some(n) => n,
        None => default,
    }
}

fn number_of(unit: &Unit, off: usize, at: u16, default: u64) -> (r: u64)
    ensures
        r == number(*unit, off, at, default),
{
    match udata(unit, off, at) {
        Some(n) => n,
        None => default,
    }
}

/// A member's offset.
pub open spec fn member_off(unit: Unit, off: usize) -> usize {
    number(unit, off, AT_DATA_MEMBER_LOCATION, 0) as usize
}

fn member_offset(unit: &Unit, off: usize) -> (r: usize)
    ensures
        r == member_off(*unit, off),
{
    number_of(unit, off, AT_DATA_MEMBER_LOCATION, 0) as usize
}

/// A type's alignment: the one given or, where none is, the smallest power of
/// two that is not below its size.
pub open spec fn align_at(unit: Unit, off: usize, size: u64) -> Result<u64, Fault> {
    match crate::die::udata_of(unit.dies(), off, AT_ALIGNMENT) {
        Some(n) => Ok(n),
        None => match crate::arith::least_pow2(
            if size == 0 {
                1
            } else {
                size
            },
        ) {
            Some(p) => Ok(p),
            None => Err(Fault::Size),
        },
    }
}

fn align_of(unit: &Unit, off: usize, size: u64) -> (r: Result<u64, Fault>)
    ensures
        r == align_at(*unit, off, size),
{
    match udata(unit, off, AT_ALIGNMENT) {
        Some(n) => Ok(n),
        None => match next_power_of_two(
            if size == 0 {
                1
            } else {
                size
            },
        ) {
            Some(p) => Ok(p),
            None => Err(Fault::Size),
        },
    }
}

/// The layout of a base type: a truth value, a number or a character.
pub open spec fn base_layout(unit: Unit, off: usize, name: Seq<char>) -> TyV {
    let size = number(unit, off, AT_BYTE_SIZE, 0) as u8;
    let enc = match crate::die::entry_at(unit.dies(), off) {
        Some(e) => match crate::die::attr_of(e, AT_ENCODING) {
            Some(Attr::Encoding(enc)) => enc,
            _ => 0,
        },
        None => 0,
    };
    if name == "()"@ {
        TyV::Unit
    } else if enc == ATE_BOOLEAN {
        TyV::Bool
    } else if enc == ATE_FLOAT {
        if size == 4 {
            TyV::F32
        } else {
            TyV::F64
        }
    } else if (enc == ATE_UNSIGNED_CHAR && name == "char"@) || enc == ATE_UTF {
        TyV::Char
    } else if enc == ATE_SIGNED || enc == ATE_SIGNED_CHAR {
        TyV::I(size)
    } else if enc == ATE_UNSIGNED || enc == ATE_UNSIGNED_CHAR {
        TyV::U(size)
    } else {
        TyV::Unknown(name)
    }
}

fn base_type(unit: &Unit, off: usize, name: &String) -> (r: Ty)
    ensures
        r@ == base_layout(*unit, off, name@),
{
    if str_eq(name.as_str(), "()") {
        return Ty::Unit;
    }
    let size: u8 = number_of(unit, off, AT_BYTE_SIZE, 0) as u8;
    let enc: u8 = match entry(unit, off) {
        Some(e) => match attr_value(e, AT_ENCODING) {
            Some(Attr::Encoding(enc)) => *enc,
            _ => 0,
        },
        None => 0,
    };
    if enc == ATE_BOOLEAN {
        Ty::Bool
    } else if enc == ATE_FLOAT {
        if size == 4 {
            Ty::F32
        } else {
            Ty::F64
        }
    } else if (enc == ATE_UNSIGNED_CHAR && str_eq(name.as_str(), "char")) || enc == ATE_UTF {
        Ty::Char
    } else if enc == ATE_SIGNED || enc == ATE_SIGNED_CHAR {
        Ty::I(size)
    } else if enc == ATE_UNSIGNED || enc == ATE_UNSIGNED_CHAR {
        Ty::U(size)
    } else {
        Ty::Unknown(name.clone())
    }
}

// ---------------------------------------------------------------------------
// The words of a `Vec`-like type.
// ---------------------------------------------------------------------------

/// How deep the members of a `Vec`-like type are searched.
pub const MAX_WORD_DEPTH: u32 = 16;

/// The words found so far.
#[derive(Clone, Copy, PartialEq, Eq, Structural, Debug)]
pub struct Words {
    pub ptr: Option<usize>,
    pub cap: Option<usize>,
    pub len: Option<usize>,
}

/// The words of the type at a site, which lies at `base`, added to those found
/// before: the first pointer, and the first members that are named as a
/// capacity and a length.
pub open spec fn words_in(units: Seq<Unit>, site: Site, base: usize, w: Words, depth: nat) -> Result<
    Words,
    Fault,
>
    decreases MAX_WORD_DEPTH + 1 - depth, 1nat, 0nat,
{
    if depth > MAX_WORD_DEPTH {
        Ok(w)
    } else {
        match unit_at(units, site.unit) {
            None => Err(Fault::Entry),
            Some(unit) => match crate::die::stripped(unit.dies(), site.off) {
                Err(f) => Err(f),
                Ok(off) => match crate::index::site_of(units, Site { unit: site.unit, off }) {
                    Err(f) => Err(f),
                    Ok(def) => match unit_at(units, def.unit) {
                        None => Err(Fault::Entry),
                        Some(unit) => match crate::die::tag_of(unit.dies(), def.off) {
                            None => Err(Fault::Entry),
                            Some(t) => if t == TAG_POINTER_TYPE {
                                Ok(
                                    if w.ptr is None {
                                        Words { ptr: Some(base), ..w }
                                    } else {
                                        w
                                    },
                                )
                            } else if t == TAG_STRUCTURE_TYPE || t == TAG_UNION_TYPE {
                                match crate::die::children(unit, def.off) {
                                    Err(f) => Err(f),
                                    Ok(kids) => words_among(
                                        units,
                                        def.unit,
                                        kids,
                                        0,
                                        base,
                                        w,
                                        depth,
                                    ),
                                }
                            } else {
                                Ok(w)
                            },
                        },
                    },
                },
            },
        }
    }
}

/// The words of the members among `kids` from the `k`th on.
pub open spec fn words_among(
    units: Seq<Unit>,
    ui: usize,
    kids: Seq<usize>,
    k: nat,
    base: usize,
    w: Words,
    depth: nat,
) -> Result<Words, Fault>
    decreases MAX_WORD_DEPTH + 1 - depth, 0nat, kids.len() - k,
{
    if k >= kids.len() || depth > MAX_WORD_DEPTH || ui >= units.len() {
        Ok(w)
    } else {
        let unit = units[ui as int];
        let es = unit.dies();
        let m = kids[k as int];
        if crate::die::tag_of(es, m) != Some(TAG_MEMBER) {
            words_among(units, ui, kids, k + 1, base, w, depth)
        } else if base + member_off(unit, m) > usize::MAX {
            Err(Fault::Size)
        } else {
            let abs = (base + member_off(unit, m)) as usize;
            let name = crate::die::name_of(es, m);
            if (name == Some("cap"@) || name == Some("capacity"@)) && w.cap is None {
                words_among(units, ui, kids, k + 1, base, Words { cap: Some(abs), ..w }, depth)
            } else if (name == Some("len"@) || name == Some("length"@)) && w.len is None {
                words_among(units, ui, kids, k + 1, base, Words { len: Some(abs), ..w }, depth)
            } else {
                match crate::die::type_of(es, m) {
                    None => words_among(units, ui, kids, k + 1, base, w, depth),
                    Some(t) => match words_in(
                        units,
                        Site { unit: ui, off: t },
                        abs,
                        w,
                        depth + 1,
                    ) {
                        Err(f) => Err(f),
                        Ok(w) => words_among(units, ui, kids, k + 1, base, w, depth),
                    },
                }
            }
        }
    }
}

/// Where the words of the `Vec`-like type at a site are.
pub open spec fn seq_layout_at(units: Seq<Unit>, site: Site) -> Result<SeqLayout, Fault> {
    match words_in(units, site, 0, Words { ptr: None, cap: None, len: None }, 0) {
        Err(f) => Err(f),
        Ok(w) => match (w.ptr, w.cap, w.len) {
            (Some(ptr_off), Some(cap_off), Some(len_off)) => Ok(
                SeqLayout { ptr_off, cap_off, len_off },
            ),
            _ => Err(Fault::Words),
        },
    }
}

/// Searches the type at a site for the words of a `Vec`-like type.
fn walk_seq(store: &Store, site: Site, base: usize, w: Words, depth: u32) -> (r: Result<
    Words,
    Fault,
>)
    ensures
        r == words_in(store.all(), site, base, w, depth as nat),
    decreases MAX_WORD_DEPTH + 1 - depth,
{
    if depth > MAX_WORD_DEPTH {
        return Ok(w);
    }
    let off: usize = match store.unit(site.unit) {
        None => {
            return Err(Fault::Entry);
        },
        Some(unit) => match strip(unit, site.off) {
            Err(f) => {
                return Err(f);
            },
            Ok(off) => off,
        },
    };
    let def: Site = match store.site(Site { unit: site.unit, off }) {
        Err(f) => {
            return Err(f);
        },
        Ok(def) => def,
    };
    let unit: &Unit = match store.unit(def.unit) {
        None => {
            return Err(Fault::Entry);
        },
        Some(unit) => unit,
    };
    let t: u16 = match tag(unit, def.off) {
        None => {
            return Err(Fault::Entry);
        },
        Some(t) => t,
    };
    if t == TAG_POINTER_TYPE {
        if w.ptr.is_none() {
            return Ok(Words { ptr: Some(base), cap: w.cap, len: w.len });
        }
        return Ok(w);
    }
    if !(t == TAG_STRUCTURE_TYPE || t == TAG_UNION_TYPE) {
        return Ok(w);
    }
    let kids: Vec<usize> = match child_offsets(unit, def.off) {
        Err(f) => {
            return Err(f);
        },
        Ok(kids) => kids,
    };
    let mut now: Words = w;
    let mut k: usize = 0;
    while k < kids.len()
        invariant
            depth <= MAX_WORD_DEPTH,
            def.unit < store.all().len(),
            *unit == store.all()[def.unit as int],
            words_in(store.all(), site, base, w, depth as nat) == words_among(
                store.all(),
                def.unit,
                kids@,
                k as nat,
                base,
                now,
                depth as nat,
            ),
        decreases kids@.len() - k,
    {
        let m: usize = kids[k];
        if tag(unit, m) == Some(TAG_MEMBER) {
            let abs: usize = match base.checked_add(member_offset(unit, m)) {
                None => {
                    return Err(Fault::Size);
                },
                Some(abs) => abs,
            };
            if (named(unit, m, "cap") || named(unit, m, "capacity")) && now.cap.is_none() {
                now = Words { ptr: now.ptr, cap: Some(abs), len: now.len };
            } else if (named(unit, m, "len") || named(unit, m, "length")) && now.len.is_none() {
                now = Words { ptr: now.ptr, cap: now.cap, len: Some(abs) };
            } else if let Some(t) = type_ref(unit, m) {
                now = match walk_seq(store, Site { unit: def.unit, off: t }, abs, now, depth + 1) {
                    Err(f) => {
                        return Err(f);
                    },
                    Ok(w) => w,
                };
            }
        }
        k = k + 1;
    }
    Ok(now)
}

/// Finds where the words of the `Vec`-like type at a site are.
fn seq_layout(store: &Store, site: Site) -> (r: Result<SeqLayout, Fault>)
    ensures
        r == seq_layout_at(store.all(), site),
{
    match walk_seq(store, site, 0, Words { ptr: None, cap: None, len: None }, 0) {
        Err(f) => Err(f),
        Ok(w) => match (w.ptr, w.cap, w.len) {
            (Some(ptr_off), Some(cap_off), Some(len_off)) => Ok(
                SeqLayout { ptr_off, cap_off, len_off },
            ),
            _ => Err(Fault::Words),
        },
    }
}

/// The offset of the last member of that name among `kids` from the `k`th on,
/// or `found`.
pub open spec fn last_member(
    unit: Unit,
    kids: Seq<usize>,
    name: Seq<char>,
    k: nat,
    found: usize,
) -> usize
    decreases kids.len() - k,
{
    if k >= kids.len() {
        found
    } else if crate::die::tag_of(unit.dies(), kids[k as int]) == Some(TAG_MEMBER)
        && crate::die::is_named(unit.dies(), kids[k as int], name) {
        last_member(unit, kids, name, k + 1, member_off(unit, kids[k as int]))
    } else {
        last_member(unit, kids, name, k + 1, found)
    }
}

/// Where the two words of a `&str` are.
pub open spec fn str_ref_at(unit: Unit, off: usize) -> Result<(usize, usize), Fault> {
    match crate::die::children(unit, off) {
        Err(f) => Err(f),
        Ok(kids) => Ok(
            (
                last_member(unit, kids, "data_ptr"@, 0, 0),
                last_member(unit, kids, "length"@, 0, 0),
            ),
        ),
    }
}

/// Finds where the two words of a `&str` are.
fn str_ref_offsets(unit: &Unit, off: usize) -> (r: Result<(usize, usize), Fault>)
    ensures
        r == str_ref_at(*unit, off),
{
    let kids: Vec<usize> = match child_offsets(unit, off) {
        Err(f) => {
            return Err(f);
        },
        Ok(kids) => kids,
    };
    let mut ptr_off: usize = 0;
    let mut len_off: usize = 0;
    let mut k: usize = 0;
    proof {
        reveal_strlit("data_ptr");
        reveal_strlit("length");
        assert("data_ptr"@.len() != "length"@.len());
    }
    while k < kids.len()
        invariant
            str_ref_at(*unit, off) == Ok::<(usize, usize), Fault>(
                (
                    last_member(*unit, kids@, "data_ptr"@, k as nat, ptr_off),
                    last_member(*unit, kids@, "length"@, k as nat, len_off),
                ),
            ),
            "data_ptr"@ != "length"@,
        decreases kids@.len() - k,
    {
        if tag(unit, kids[k]) == Some(TAG_MEMBER) {
            let abs: usize = member_offset(unit, kids[k]);
            if named(unit, kids[k], "data_ptr") {
                ptr_off = abs;
            } else if named(unit, kids[k], "length") {
                len_off = abs;
            }
        }
        k = k + 1;
    }
    Ok((ptr_off, len_off))
}

// ---------------------------------------------------------------------------
// Types.
// ---------------------------------------------------------------------------

/// Whether a type only wraps another, which it has for its parameter, without
/// changing its layout.
pub open spec fn is_transparent(name: Seq<char>) -> bool {
    ||| crate::text::begins(name, "MaybeUninit<"@)
    ||| crate::text::begins(name, "ManuallyDrop<"@)
    ||| crate::text::begins(name, "UnsafeCell<"@)
}

/// A type that is marked as recursive where it refers to itself.
pub open spec fn tied(site: Site, body: TyV) -> TyV {
    if crate::plan::mentions(body, site) {
        TyV::Rec { site, body: Box::new(body) }
    } else {
        body
    }
}

/// The layout of the type at a site. `memo` holds the sites of the types around
/// it; where it is one of them the layout is a back-edge. At most `hops`
/// transparent wrappers may follow one another.
pub open spec fn layout_of(
    units: Seq<Unit>,
    slide: u64,
    site: Site,
    memo: Seq<Site>,
    hops: nat,
) -> Result<TyV, Fault>
    decreases size_of(units) + 1 - memo.len(), hops, 2nat, 0nat,
{
    match unit_at(units, site.unit) {
        None => Err(Fault::Entry),
        Some(unit) => match crate::die::stripped(unit.dies(), site.off) {
            Err(f) => Err(f),
            Ok(off) => match crate::index::site_of(units, Site { unit: site.unit, off }) {
                Err(f) => Err(f),
                Ok(def) => match unit_at(units, def.unit) {
                    None => Err(Fault::Entry),
                    Some(unit) => match crate::die::tag_of(unit.dies(), def.off) {
                        None => Err(Fault::Entry),
                        Some(t) => {
                            let name = label(unit, def.off);
                            if is_transparent(name) {
                                match crate::die::param_of(unit, def.off, None) {
                                    Err(f) => Err(f),
                                    Ok(None) => Err(Fault::Parameter),
                                    Ok(Some(inner)) => if hops == 0 {
                                        Err(Fault::Endless)
                                    } else {
                                        layout_of(
                                            units,
                                            slide,
                                            Site { unit: def.unit, off: inner },
                                            memo,
                                            (hops - 1) as nat,
                                        )
                                    },
                                }
                            } else if memo.contains(def) {
                                Ok(TyV::Ref(def))
                            } else if memo.len() > size_of(units) {
                                Err(Fault::Endless)
                            } else {
                                let inside = memo.push(def);
                                let body = if t == TAG_BASE_TYPE {
                                    Ok(base_layout(unit, def.off, name))
                                } else if t == TAG_POINTER_TYPE {
                                    boxed_layout(units, slide, def, name, inside)
                                } else if t == TAG_STRUCTURE_TYPE {
                                    struct_layout(units, slide, def, name, inside)
                                } else if t == TAG_ENUMERATION_TYPE {
                                    Ok(TyV::Unknown("enum "@ + name))
                                } else {
                                    Ok(TyV::Unknown(name))
                                };
                                match body {
                                    Err(f) => Err(f),
                                    Ok(body) => Ok(tied(def, body)),
                                }
                            }
                        },
                    },
                },
            },
        },
    }
}

/// The layout of a type that a layout around it refers to.
pub open spec fn part_layout(
    units: Seq<Unit>,
    slide: u64,
    ui: usize,
    off: usize,
    memo: Seq<Site>,
) -> Result<TyV, Fault>
    decreases size_of(units) + 1 - memo.len(), size_of(units), 3nat, 0nat,
{
    layout_of(units, slide, Site { unit: ui, off }, memo, size_of(units))
}

/// The layout of a pointer, which is taken to own what it points to.
pub open spec fn boxed_layout(
    units: Seq<Unit>,
    slide: u64,
    def: Site,
    name: Seq<char>,
    memo: Seq<Site>,
) -> Result<TyV, Fault>
    decreases size_of(units) + 1 - memo.len(), size_of(units) + 1, 0nat, 0nat,
{
    let unit = units[def.unit as int];
    match crate::die::type_of(unit.dies(), def.off) {
        None => Ok(TyV::Unknown("*"@ + name)),
        Some(pointee) => match part_layout(units, slide, def.unit, pointee, memo) {
            Err(f) => Err(f),
            Ok(inner) => match crate::die::stripped(unit.dies(), pointee) {
                Err(f) => Err(f),
                Ok(pointee) => {
                    let size = number(unit, pointee, AT_BYTE_SIZE, 0);
                    match align_at(unit, pointee, size) {
                        Err(f) => Err(f),
                        Ok(align) => Ok(TyV::Boxed { inner: Box::new(inner), size, align }),
                    }
                },
            },
        },
    }
}

/// The layout of a struct.
pub open spec fn struct_layout(
    units: Seq<Unit>,
    slide: u64,
    def: Site,
    name: Seq<char>,
    memo: Seq<Site>,
) -> Result<TyV, Fault>
    decreases size_of(units) + 1 - memo.len(), size_of(units) + 1, 2nat, 0nat,
{
    let unit = units[def.unit as int];
    if name == "String"@ {
        match seq_layout_at(units, def) {
            Err(f) => Err(f),
            Ok(seq) => Ok(TyV::Str(seq)),
        }
    } else if name == "&str"@ {
        match str_ref_at(unit, def.off) {
            Err(f) => Err(f),
            Ok((ptr_off, len_off)) => Ok(TyV::StrRef { ptr_off, len_off }),
        }
    } else if crate::text::begins(name, "Vec<"@) {
        vec_layout(units, slide, def, memo)
    } else if crate::text::begins(name, "BTreeMap<"@) {
        map_layout(units, slide, def, memo)
    } else {
        match crate::die::child_where(unit, def.off, TAG_VARIANT_PART, None) {
            Err(f) => Err(f),
            Ok(Some(vp)) => option_layout(units, slide, def, vp, name, memo),
            Ok(None) => match crate::die::children(unit, def.off) {
                Err(f) => Err(f),
                Ok(kids) => match fields_among(units, slide, def.unit, kids, 0, memo) {
                    Err(f) => Err(f),
                    Ok(fields) => Ok(
                        if crate::tuple::is_tuple(fields) {
                            TyV::Tuple { fields: crate::tuple::by_position(fields, fields.len()) }
                        } else {
                            TyV::Struct { name, fields }
                        },
                    ),
                },
            },
        }
    }
}

/// The layout of a `Vec`.
pub open spec fn vec_layout(units: Seq<Unit>, slide: u64, def: Site, memo: Seq<Site>) -> Result<
    TyV,
    Fault,
>
    decreases size_of(units) + 1 - memo.len(), size_of(units) + 1, 1nat, 0nat,
{
    let unit = units[def.unit as int];
    match crate::die::param_of(unit, def.off, None) {
        Err(f) => Err(f),
        Ok(None) => Err(Fault::Parameter),
        Ok(Some(elem_off)) => match part_layout(units, slide, def.unit, elem_off, memo) {
            Err(f) => Err(f),
            Ok(elem) => match crate::die::stripped(unit.dies(), elem_off) {
                Err(f) => Err(f),
                Ok(elem_off) => {
                    let elem_size = number(unit, elem_off, AT_BYTE_SIZE, 1);
                    match align_at(unit, elem_off, elem_size) {
                        Err(f) => Err(f),
                        Ok(elem_align) => match seq_layout_at(units, def) {
                            Err(f) => Err(f),
                            Ok(seq) => Ok(
                                TyV::Vec { elem: Box::new(elem), elem_size, elem_align, seq },
                            ),
                        },
                    }
                },
            },
        },
    }
}

/// The size of a map's key or value type.
pub open spec fn part_size(unit: Unit, off: usize, default: u64) -> Result<u64, Fault> {
    match crate::die::stripped(unit.dies(), off) {
        Err(f) => Err(f),
        Ok(off) => Ok(number(unit, off, AT_BYTE_SIZE, default)),
    }
}

/// The address of a function that builds maps.
pub open spec fn trampoline(
    units: Seq<Unit>,
    slide: u64,
    prefix: Seq<char>,
    v_name: Seq<char>,
    match_v: bool,
) -> Result<u64, Fault> {
    match crate::tramp::tramp_from(units, slide, prefix, v_name, match_v, 0) {
        Err(f) => Err(f),
        Ok(None) => Err(Fault::Trampoline),
        Ok(Some(a)) => Ok(a),
    }
}

/// The layout of a `BTreeMap`.
pub open spec fn map_layout(units: Seq<Unit>, slide: u64, def: Site, memo: Seq<Site>) -> Result<
    TyV,
    Fault,
>
    decreases size_of(units) + 1 - memo.len(), size_of(units) + 1, 1nat, 0nat,
{
    let unit = units[def.unit as int];
    match (
        crate::die::param_of(unit, def.off, Some("K"@)),
        crate::die::param_of(unit, def.off, Some("V"@)),
    ) {
        (Err(f), _) => Err(f),
        (Ok(None), _) => Err(Fault::Parameter),
        (Ok(Some(k_off)), Err(f)) => Err(f),
        (Ok(Some(k_off)), Ok(None)) => Err(Fault::Parameter),
        (Ok(Some(k_off)), Ok(Some(v_off))) => {
            let v_name = label(unit, v_off);
            match part_layout(units, slide, def.unit, k_off, memo) {
                Err(f) => Err(f),
                Ok(key) => match part_size(unit, k_off, 24) {
                    Err(f) => Err(f),
                    Ok(key_size) => match part_layout(units, slide, def.unit, v_off, memo) {
                        Err(f) => Err(f),
                        Ok(val) => match part_size(unit, v_off, 1) {
                            Err(f) => Err(f),
                            Ok(val_size) => match trampoline(
                                units,
                                slide,
                                "map_new_at"@,
                                v_name,
                                false,
                            ) {
                                Err(f) => Err(f),
                                Ok(new_at) => match trampoline(
                                    units,
                                    slide,
                                    "map_insert"@,
                                    v_name,
                                    true,
                                ) {
                                    Err(f) => Err(f),
                                    Ok(insert) => Ok(
                                        TyV::BTreeMap {
                                            key: Box::new(key),
                                            key_size,
                                            val: Box::new(val),
                                            val_size,
                                            new_at,
                                            insert,
                                        },
                                    ),
                                },
                            },
                        },
                    },
                },
            }
        },
    }
}

/// The fields that the members among `kids`, from the `k`th on, come to.
pub open spec fn fields_among(
    units: Seq<Unit>,
    slide: u64,
    ui: usize,
    kids: Seq<usize>,
    k: nat,
    memo: Seq<Site>,
) -> Result<Seq<FieldV>, Fault>
    decreases size_of(units) + 1 - memo.len(), size_of(units) + 1, 0nat, kids.len() - k,
{
    let unit = units[ui as int];
    let es = unit.dies();
    if k >= kids.len() {
        Ok(Seq::empty())
    } else if crate::die::tag_of(es, kids[k as int]) != Some(TAG_MEMBER) {
        fields_among(units, slide, ui, kids, k + 1, memo)
    } else {
        let m = kids[k as int];
        let ty = match crate::die::type_of(es, m) {
            None => Ok(TyV::Unknown("?"@)),
            Some(t) => part_layout(units, slide, ui, t, memo),
        };
        match ty {
            Err(f) => Err(f),
            Ok(ty) => match fields_among(units, slide, ui, kids, k + 1, memo) {
                Err(f) => Err(f),
                Ok(rest) => Ok(
                    seq![FieldV { name: label(unit, m), offset: member_off(unit, m), ty }] + rest,
                ),
            },
        }
    }
}

/// What the variants of an `Option` come to: the discriminant of the one
/// without a payload; and of the one with a payload its discriminant and the
/// payload's offset and layout.
pub struct Variants {
    pub none: Option<u128>,
    pub some: Option<(Option<u128>, usize, TyV)>,
}

/// A discriminant, widened.
pub open spec fn wide(d: Option<u64>) -> Option<u128> {
    match d {
        Some(x) => Some(x as u128),
        None => None,
    }
}

/// What the variants among `kids` from the `k`th on come to, after those before.
pub open spec fn variants_among(
    units: Seq<Unit>,
    slide: u64,
    ui: usize,
    kids: Seq<usize>,
    k: nat,
    before: Variants,
    memo: Seq<Site>,
) -> Result<Variants, Fault>
    decreases size_of(units) + 1 - memo.len(), size_of(units) + 1, 0nat, kids.len() - k,
{
    let unit = units[ui as int];
    let es = unit.dies();
    if k >= kids.len() {
        Ok(before)
    } else {
        match variant_at(units, slide, ui, kids[k as int], before, memo) {
            Err(f) => Err(f),
            Ok(now) => variants_among(units, slide, ui, kids, k + 1, now, memo),
        }
    }
}

/// What the variants come to after the entry `v`, where it is one.
pub open spec fn variant_at(
    units: Seq<Unit>,
    slide: u64,
    ui: usize,
    v: usize,
    before: Variants,
    memo: Seq<Site>,
) -> Result<Variants, Fault>
    decreases size_of(units) + 1 - memo.len(), size_of(units), 4nat, 0nat,
{
    let unit = units[ui as int];
    let es = unit.dies();
    if crate::die::tag_of(es, v) != Some(TAG_VARIANT) {
        Ok(before)
    } else {
        match crate::die::child_where(unit, v, TAG_MEMBER, None) {
            Err(f) => Err(f),
            Ok(None) => Ok(before),
            Ok(Some(pm)) => match crate::die::type_of(es, pm) {
                None => Ok(before),
                Some(payload) => match crate::die::stripped(es, payload) {
                    Err(f) => Err(f),
                    Ok(payload) => match crate::die::child_where(
                        unit,
                        payload,
                        TAG_MEMBER,
                        Some("__0"@),
                    ) {
                        Err(f) => Err(f),
                        Ok(None) => Ok(
                            Variants { none: wide(crate::die::discr_of(es, v)), ..before },
                        ),
                        Ok(Some(f0)) => match crate::die::type_of(es, f0) {
                            None => Ok(before),
                            Some(t) => {
                                let off = member_off(unit, pm) + member_off(unit, f0);
                                if off > usize::MAX {
                                    Err(Fault::Size)
                                } else {
                                    match part_layout(units, slide, ui, t, memo) {
                                        Err(f) => Err(f),
                                        Ok(ty) => Ok(
                                            Variants {
                                                some: Some(
                                                    (
                                                        wide(crate::die::discr_of(es, v)),
                                                        off as usize,
                                                        ty,
                                                    ),
                                                ),
                                                ..before
                                            },
                                        ),
                                    }
                                }
                            },
                        },
                    },
                },
            },
        }
    }
}

/// The entry of a variant part's discriminant.
pub open spec fn discr_member(es: Seq<Entry>, vp: usize) -> Option<usize> {
    match crate::die::entry_at(es, vp) {
        None => None,
        Some(e) => match crate::die::attr_of(e, AT_DISCR) {
            Some(Attr::UnitRef(o)) => Some(o),
            _ => None,
        },
    }
}

/// How many bytes a discriminant takes.
pub open spec fn discr_size(unit: Unit, m: usize) -> Result<u8, Fault> {
    match crate::die::type_of(unit.dies(), m) {
        None => Ok(8),
        Some(t) => match crate::die::stripped(unit.dies(), t) {
            Err(f) => Err(f),
            Ok(t) => Ok(number(unit, t, AT_BYTE_SIZE, 8) as u8),
        },
    }
}

/// The layout of an enum with two variants of which one holds a value, in the
/// niche encoding and in the tagged one.
pub open spec fn option_layout(
    units: Seq<Unit>,
    slide: u64,
    def: Site,
    vp: usize,
    name: Seq<char>,
    memo: Seq<Site>,
) -> Result<TyV, Fault>
    decreases size_of(units) + 1 - memo.len(), size_of(units) + 1, 1nat, 0nat,
{
    let unit = units[def.unit as int];
    let unknown = TyV::Unknown("enum "@ + name);
    match discr_member(unit.dies(), vp) {
        None => Ok(unknown),
        Some(dm) => match discr_size(unit, dm) {
            Err(f) => Err(f),
            Ok(disc_size) => match crate::die::children(unit, vp) {
                Err(f) => Err(f),
                Ok(kids) => match variants_among(
                    units,
                    slide,
                    def.unit,
                    kids,
                    0,
                    Variants { none: None, some: None },
                    memo,
                ) {
                    Err(f) => Err(f),
                    Ok(vs) => match (vs.none, vs.some) {
                        (Some(none_discr), Some((some_discr, payload_off, inner))) => Ok(
                            TyV::Opt {
                                disc_off: member_off(unit, dm),
                                disc_size,
                                none_discr,
                                some_discr,
                                payload_off,
                                size: number(unit, def.off, AT_BYTE_SIZE, 0),
                                inner: Box::new(inner),
                            },
                        ),
                        _ => Ok(unknown),
                    },
                },
            },
        },
    }
}

/// The layout of the type at a site.
pub open spec fn classified(units: Seq<Unit>, slide: u64, site: Site) -> Result<TyV, Fault> {
    layout_of(units, slide, site, Seq::empty(), size_of(units))
}

/// Whether a result says what it should.
pub open spec fn said(want: Result<TyV, Fault>, r: Result<Ty, Fault>) -> bool {
    match want {
        Ok(ty) => r matches Ok(got) && got@ == ty,
        Err(f) => r matches Err(got) && got == f,
    }
}

fn transparent(name: &str) -> (r: bool)
    ensures
        r == is_transparent(name@),
{
    starts_with(name, "MaybeUninit<") || starts_with(name, "ManuallyDrop<") || starts_with(
        name,
        "UnsafeCell<",
    )
}

fn among(memo: &Vec<Site>, site: Site) -> (r: bool)
    ensures
        r == memo@.contains(site),
{
    let mut k: usize = 0;
    while k < memo.len()
        invariant
            k <= memo@.len(),
            forall|j: int| 0 <= j < k ==> memo@[j] != site,
        decreases memo@.len() - k,
    {
        if memo[k] == site {
            assert(memo@[k as int] == site);
            return true;
        }
        k = k + 1;
    }
    false
}

/// Finds the layout of the type at a site, inside the types of `memo`.
fn layout(store: &Store, site: Site, memo: &mut Vec<Site>, hops: u128) -> (r: Result<Ty, Fault>)
    ensures
        final(memo)@ == old(memo)@,
        said(layout_of(store.all(), store.slid(), site, old(memo)@, hops as nat), r),
    decreases size_of(store.all()) + 1 - old(memo)@.len(), hops, 2nat, 0nat,
{
    let off: usize = match store.unit(site.unit) {
        None => {
            return Err(Fault::Entry);
        },
        Some(unit) => match strip(unit, site.off) {
            Err(f) => {
                return Err(f);
            },
            Ok(off) => off,
        },
    };
    let def: Site = match store.site(Site { unit: site.unit, off }) {
        Err(f) => {
            return Err(f);
        },
        Ok(def) => def,
    };
    let unit: &Unit = match store.unit(def.unit) {
        None => {
            return Err(Fault::Entry);
        },
        Some(unit) => unit,
    };
    let t: u16 = match tag(unit, def.off) {
        None => {
            return Err(Fault::Entry);
        },
        Some(t) => t,
    };
    let name: String = label_of(unit, def.off);
    if transparent(name.as_str()) {
        return match template_param(unit, def.off) {
            Err(f) => Err(f),
            Ok(None) => Err(Fault::Parameter),
            Ok(Some(inner)) => if hops == 0 {
                Err(Fault::Endless)
            } else {
                layout(store, Site { unit: def.unit, off: inner }, memo, hops - 1)
            },
        };
    }
    if among(memo, def) {
        return Ok(Ty::Ref(def));
    }
    if memo.len() as u128 > store.size() {
        return Err(Fault::Endless);
    }
    memo.push(def);
    let body: Result<Ty, Fault> = if t == TAG_BASE_TYPE {
        Ok(base_type(unit, def.off, &name))
    } else if t == TAG_POINTER_TYPE {
        boxed(store, unit, def, &name, memo)
    } else if t == TAG_STRUCTURE_TYPE {
        structure(store, unit, def, &name, memo)
    } else if t == TAG_ENUMERATION_TYPE {
        Ok(Ty::Unknown(joined("enum ", name.as_str())))
    } else {
        Ok(Ty::Unknown(name))
    };
    memo.pop();
    assert(memo@ =~= old(memo)@);
    match body {
        Err(f) => Err(f),
        Ok(body) => if body.mentions(def) {
            Ok(Ty::Rec { site: def, body: Box::new(body) })
        } else {
            Ok(body)
        },
    }
}

/// Finds the layout of a pointer, which is taken to own what it points to.
fn boxed(store: &Store, unit: &Unit, def: Site, name: &String, memo: &mut Vec<Site>) -> (r: Result<
    Ty,
    Fault,
>)
    requires
        unit_at(store.all(), def.unit) == Some(*unit),
    ensures
        final(memo)@ == old(memo)@,
        said(boxed_layout(store.all(), store.slid(), def, name@, old(memo)@), r),
    decreases
            size_of(store.all()) + 1 - old(memo)@.len(),
            size_of(store.all()) + 1,
            0nat,
            0nat,
{
    let pointee: usize = match type_ref(unit, def.off) {
        None => {
            return Ok(Ty::Unknown(joined("*", name.as_str())));
        },
        Some(pointee) => pointee,
    };
    let inner: Ty = match layout(
        store,
        Site { unit: def.unit, off: pointee },
        memo,
        store.size(),
    ) {
        Err(f) => {
            return Err(f);
        },
        Ok(inner) => inner,
    };
    match strip(unit, pointee) {
        Err(f) => Err(f),
        Ok(pointee) => {
            let size: u64 = number_of(unit, pointee, AT_BYTE_SIZE, 0);
            match align_of(unit, pointee, size) {
                Err(f) => Err(f),
                Ok(align) => Ok(Ty::Boxed { inner: Box::new(inner), size, align }),
            }
        },
    }
}

/// Finds the layout of a struct.
fn structure(store: &Store, unit: &Unit, def: Site, name: &String, memo: &mut Vec<Site>) -> (r:
    Result<Ty, Fault>)
    requires
        unit_at(store.all(), def.unit) == Some(*unit),
    ensures
        final(memo)@ == old(memo)@,
        said(struct_layout(store.all(), store.slid(), def, name@, old(memo)@), r),
    decreases
            size_of(store.all()) + 1 - old(memo)@.len(),
            size_of(store.all()) + 1,
            2nat,
            0nat,
{
    if str_eq(name.as_str(), "String") {
        return match seq_layout(store, def) {
            Err(f) => Err(f),
            Ok(seq) => Ok(Ty::Str(seq)),
        };
    }
    if str_eq(name.as_str(), "&str") {
        return match str_ref_offsets(unit, def.off) {
            Err(f) => Err(f),
            Ok((ptr_off, len_off)) => Ok(Ty::StrRef { ptr_off, len_off }),
        };
    }
    if starts_with(name.as_str(), "Vec<") {
        return vector(store, unit, def, memo);
    }
    if starts_with(name.as_str(), "BTreeMap<") {
        return tree_map(store, unit, def, memo);
    }
    match child_with_tag(unit, def.off, TAG_VARIANT_PART) {
        Err(f) => {
            return Err(f);
        },
        Ok(Some(vp)) => {
            return parse_option(store, unit, def, vp, name, memo);
        },
        Ok(None) => {},
    }
    let kids: Vec<usize> = match child_offsets(unit, def.off) {
        Err(f) => {
            return Err(f);
        },
        Ok(kids) => kids,
    };
    let fields: Vec<FieldTy> = match members(store, unit, def.unit, &kids, memo) {
        Err(f) => {
            return Err(f);
        },
        Ok(fields) => fields,
    };
    assert(crate::plan::fields_view(fields@).len() == fields@.len());
    if crate::tuple::tuple_like(&fields) {
        return Ok(Ty::Tuple { fields: crate::tuple::sort_fields(fields) });
    }
    Ok(Ty::Struct { name: name.clone(), fields })
}

/// Finds the layout of a `Vec`.
fn vector(store: &Store, unit: &Unit, def: Site, memo: &mut Vec<Site>) -> (r: Result<Ty, Fault>)
    requires
        unit_at(store.all(), def.unit) == Some(*unit),
    ensures
        final(memo)@ == old(memo)@,
        said(vec_layout(store.all(), store.slid(), def, old(memo)@), r),
    decreases
            size_of(store.all()) + 1 - old(memo)@.len(),
            size_of(store.all()) + 1,
            1nat,
            0nat,
{
    let elem_off: usize = match template_param(unit, def.off) {
        Err(f) => {
            return Err(f);
        },
        Ok(None) => {
            return Err(Fault::Parameter);
        },
        Ok(Some(off)) => off,
    };
    let elem: Ty = match layout(
        store,
        Site { unit: def.unit, off: elem_off },
        memo,
        store.size(),
    ) {
        Err(f) => {
            return Err(f);
        },
        Ok(elem) => elem,
    };
    let elem_off: usize = match strip(unit, elem_off) {
        Err(f) => {
            return Err(f);
        },
        Ok(off) => off,
    };
    let elem_size: u64 = number_of(unit, elem_off, AT_BYTE_SIZE, 1);
    let elem_align: u64 = match align_of(unit, elem_off, elem_size) {
        Err(f) => {
            return Err(f);
        },
        Ok(align) => align,
    };
    match seq_layout(store, def) {
        Err(f) => Err(f),
        Ok(seq) => Ok(Ty::Vec { elem: Box::new(elem), elem_size, elem_align, seq }),
    }
}

fn size_at(unit: &Unit, off: usize, default: u64) -> (r: Result<u64, Fault>)
    ensures
        r == part_size(*unit, off, default),
{
    match strip(unit, off) {
        Err(f) => Err(f),
        Ok(off) => Ok(number_of(unit, off, AT_BYTE_SIZE, default)),
    }
}

fn find_trampoline(store: &Store, prefix: &str, v_name: &str, match_v: bool) -> (r: Result<
    u64,
    Fault,
>)
    ensures
        r == trampoline(store.all(), store.slid(), prefix@, v_name@, match_v),
{
    match resolve_tramp(store, prefix, v_name, match_v) {
        Err(f) => Err(f),
        Ok(None) => Err(Fault::Trampoline),
        Ok(Some(a)) => Ok(a),
    }
}

/// Finds the layout of a `BTreeMap`.
fn tree_map(store: &Store, unit: &Unit, def: Site, memo: &mut Vec<Site>) -> (r: Result<Ty, Fault>)
    requires
        unit_at(store.all(), def.unit) == Some(*unit),
    ensures
        final(memo)@ == old(memo)@,
        said(map_layout(store.all(), store.slid(), def, old(memo)@), r),
    decreases
            size_of(store.all()) + 1 - old(memo)@.len(),
            size_of(store.all()) + 1,
            1nat,
            0nat,
{
    let k_off: usize = match template_named(unit, def.off, "K") {
        Err(f) => {
            return Err(f);
        },
        Ok(None) => {
            return Err(Fault::Parameter);
        },
        Ok(Some(off)) => off,
    };
    let v_off: usize = match template_named(unit, def.off, "V") {
        Err(f) => {
            return Err(f);
        },
        Ok(None) => {
            return Err(Fault::Parameter);
        },
        Ok(Some(off)) => off,
    };
    let v_name: String = label_of(unit, v_off);
    let key: Ty = match layout(store, Site { unit: def.unit, off: k_off }, memo, store.size()) {
        Err(f) => {
            return Err(f);
        },
        Ok(key) => key,
    };
    let key_size: u64 = match size_at(unit, k_off, 24) {
        Err(f) => {
            return Err(f);
        },
        Ok(size) => size,
    };
    let val: Ty = match layout(store, Site { unit: def.unit, off: v_off }, memo, store.size()) {
        Err(f) => {
            return Err(f);
        },
        Ok(val) => val,
    };
    let val_size: u64 = match size_at(unit, v_off, 1) {
        Err(f) => {
            return Err(f);
        },
        Ok(size) => size,
    };
    let new_at: u64 = match find_trampoline(store, "map_new_at", v_name.as_str(), false) {
        Err(f) => {
            return Err(f);
        },
        Ok(a) => a,
    };
    let insert: u64 = match find_trampoline(store, "map_insert", v_name.as_str(), true) {
        Err(f) => {
            return Err(f);
        },
        Ok(a) => a,
    };
    Ok(Ty::BTreeMap { key: Box::new(key), key_size, val: Box::new(val), val_size, new_at, insert })
}

/// Finds the fields of a struct.
#[verifier::loop_isolation(false)]
fn members(
    store: &Store,
    unit: &Unit,
    ui: usize,
    kids: &Vec<usize>,
    memo: &mut Vec<Site>,
) -> (r: Result<Vec<FieldTy>, Fault>)
    requires
        unit_at(store.all(), ui) == Some(*unit),
    ensures
        final(memo)@ == old(memo)@,
        match fields_among(store.all(), store.slid(), ui, kids@, 0, old(memo)@) {
            Ok(fields) => r matches Ok(got) && crate::plan::fields_view(got@) == fields,
            Err(f) => r matches Err(got) && got == f,
        },
    decreases
            size_of(store.all()) + 1 - old(memo)@.len(),
            size_of(store.all()) + 1,
            0nat,
            kids@.len(),
{
    let ghost want = fields_among(store.all(), store.slid(), ui, kids@, 0, memo@);
    let mut fields: Vec<FieldTy> = Vec::new();
    let mut k: usize = 0;
    assert(crate::plan::fields_view(fields@) =~= Seq::<FieldV>::empty());
    assert(match want {
        Ok(rest) => Seq::<FieldV>::empty() + rest =~= rest,
        Err(_) => true,
    });
    while k < kids.len()
        invariant
            k <= kids@.len(),
            memo@ == old(memo)@,
            match fields_among(store.all(), store.slid(), ui, kids@, k as nat, memo@) {
                Ok(rest) => want == Ok::<Seq<FieldV>, Fault>(
                    crate::plan::fields_view(fields@) + rest,
                ),
                Err(f) => want == Err::<Seq<FieldV>, Fault>(f),
            },
        decreases kids@.len() - k,
    {
        let m: usize = kids[k];
        let ghost before = crate::plan::fields_view(fields@);
        if tag(unit, m) == Some(TAG_MEMBER) {
            let ty: Ty = match type_ref(unit, m) {
                None => Ty::Unknown("?".to_string()),
                Some(t) => {
                    let at = Site { unit: ui, off: t };
                    assert(part_layout(store.all(), store.slid(), ui, t, memo@) == layout_of(
                        store.all(),
                        store.slid(),
                        at,
                        memo@,
                        size_of(store.all()),
                    ));
                    match layout(store, at, memo, store.size()) {
                        Err(f) => {
                            return Err(f);
                        },
                        Ok(ty) => ty,
                    }
                },
            };
            let f = FieldTy { name: label_of(unit, m), offset: member_offset(unit, m), ty };
            let ghost fv = f@;
            fields.push(f);
            proof {
                assert(crate::plan::fields_view(fields@) =~= before.push(fv));
                if let Ok(rest) = fields_among(
                    store.all(),
                    store.slid(),
                    ui,
                    kids@,
                    (k + 1) as nat,
                    memo@,
                ) {
                    assert(before + (seq![fv] + rest) =~= crate::plan::fields_view(fields@) + rest);
                }
            }
        }
        k = k + 1;
    }
    assert(crate::plan::fields_view(fields@) + Seq::<FieldV>::empty()
        =~= crate::plan::fields_view(fields@));
    Ok(fields)
}

/// What the variants of an `Option` come to.
struct Found {
    none: Option<u128>,
    some: Option<(Option<u128>, usize, Ty)>,
}

impl View for Found {
    type V = Variants;

    closed spec fn view(&self) -> Variants {
        Variants {
            none: self.none,
            some: match self.some {
                Some((d, off, ty)) => Some((d, off, ty@)),
                None => None,
            },
        }
    }
}

fn widened(d: Option<u64>) -> (r: Option<u128>)
    ensures
        r == wide(d),
{
    match d {
        Some(x) => Some(x as u128),
        None => None,
    }
}

/// Takes one variant in.
fn take_variant(
    store: &Store,
    unit: &Unit,
    ui: usize,
    v: usize,
    before: Found,
    memo: &mut Vec<Site>,
) -> (r: Result<Found, Fault>)
    requires
        unit_at(store.all(), ui) == Some(*unit),
    ensures
        final(memo)@ == old(memo)@,
        match variant_at(store.all(), store.slid(), ui, v, before@, old(memo)@) {
            Ok(now) => r matches Ok(got) && got@ == now,
            Err(f) => r matches Err(got) && got == f,
        },
    decreases
            size_of(store.all()) + 1 - old(memo)@.len(),
            size_of(store.all()),
            4nat,
            0nat,
{
    if tag(unit, v) != Some(TAG_VARIANT) {
        return Ok(before);
    }
    let pm: usize = match child_with_tag(unit, v, TAG_MEMBER) {
        Err(f) => {
            return Err(f);
        },
        Ok(None) => {
            return Ok(before);
        },
        Ok(Some(pm)) => pm,
    };
    let payload: usize = match type_ref(unit, pm) {
        None => {
            return Ok(before);
        },
        Some(t) => match strip(unit, t) {
            Err(f) => {
                return Err(f);
            },
            Ok(t) => t,
        },
    };
    match child_named(unit, payload, TAG_MEMBER, "__0") {
        Err(f) => Err(f),
        Ok(None) => Ok(Found { none: widened(attr_udata(unit, v)), some: before.some }),
        Ok(Some(f0)) => match type_ref(unit, f0) {
            None => Ok(before),
            Some(t) => match member_offset(unit, pm).checked_add(member_offset(unit, f0)) {
                None => Err(Fault::Size),
                Some(off) => match layout(store, Site { unit: ui, off: t }, memo, store.size()) {
                    Err(f) => Err(f),
                    Ok(ty) => Ok(
                        Found {
                            none: before.none,
                            some: Some((widened(attr_udata(unit, v)), off, ty)),
                        },
                    ),
                },
            },
        },
    }
}

/// Finds the layout of an enum with two variants of which one holds a value.
#[verifier::loop_isolation(false)]
fn parse_option(
    store: &Store,
    unit: &Unit,
    def: Site,
    vp: usize,
    name: &String,
    memo: &mut Vec<Site>,
) -> (r: Result<Ty, Fault>)
    requires
        unit_at(store.all(), def.unit) == Some(*unit),
    ensures
        final(memo)@ == old(memo)@,
        said(option_layout(store.all(), store.slid(), def, vp, name@, old(memo)@), r),
    decreases
            size_of(store.all()) + 1 - old(memo)@.len(),
            size_of(store.all()) + 1,
            1nat,
            0nat,
{
    let size: u64 = number_of(unit, def.off, AT_BYTE_SIZE, 0);
    let dm: usize = match entry(unit, vp) {
        None => {
            return Ok(Ty::Unknown(joined("enum ", name.as_str())));
        },
        Some(e) => match attr_value(e, AT_DISCR) {
            Some(Attr::UnitRef(o)) => *o,
            _ => {
                return Ok(Ty::Unknown(joined("enum ", name.as_str())));
            },
        },
    };
    let disc_off: usize = member_offset(unit, dm);
    let disc_size: u8 = match type_ref(unit, dm) {
        None => 8,
        Some(t) => match strip(unit, t) {
            Err(f) => {
                return Err(f);
            },
            Ok(t) => number_of(unit, t, AT_BYTE_SIZE, 8) as u8,
        },
    };
    let kids: Vec<usize> = match child_offsets(unit, vp) {
        Err(f) => {
            return Err(f);
        },
        Ok(kids) => kids,
    };
    let mut found = Found { none: None, some: None };
    let ghost want = variants_among(
        store.all(),
        store.slid(),
        def.unit,
        kids@,
        0,
        found@,
        memo@,
    );
    let mut k: usize = 0;
    while k < kids.len()
        invariant
            k <= kids@.len(),
            memo@ == old(memo)@,
            want == variants_among(
                store.all(),
                store.slid(),
                def.unit,
                kids@,
                k as nat,
                found@,
                memo@,
            ),
        decreases kids@.len() - k,
    {
        found = match take_variant(store, unit, def.unit, kids[k], found, memo) {
            Err(f) => {
                return Err(f);
            },
            Ok(now) => now,
        };
        k = k + 1;
    }
    match (found.none, found.some) {
        (Some(none_discr), Some((some_discr, payload_off, inner))) => Ok(
            Ty::Opt {
                disc_off,
                disc_size,
                none_discr,
                some_discr,
                payload_off,
                size,
                inner: Box::new(inner),
            },
        ),
        _ => Ok(Ty::Unknown(joined("enum ", name.as_str()))),
    }
}

/// Finds the layout of the type at a site.
pub fn classify(store: &Store, site: Site) -> (r: Result<Ty, Fault>)
    ensures
        said(classified(store.all(), store.slid(), site), r),
{
    let mut memo: Vec<Site> = Vec::new();
    layout(store, site, &mut memo, store.size())
}

/// Whether every back-edge in a type leads to a type around it: one of those sites,
/// or one inside.
pub open spec fn closed_in(ty: TyV, sites: Seq<Site>) -> bool
    decreases ty, 0nat,
{
    match ty {
        TyV::Struct { name, fields } => fields_closed(fields, fields.len(), sites),
        TyV::Tuple { fields } => fields_closed(fields, fields.len(), sites),
        TyV::Vec { elem, .. } => closed_in(*elem, sites),
        TyV::Opt { inner, .. } => closed_in(*inner, sites),
        TyV::BTreeMap { key, val, .. } => closed_in(*key, sites) && closed_in(*val, sites),
        TyV::Boxed { inner, .. } => closed_in(*inner, sites),
        TyV::Rec { site, body } => closed_in(*body, sites.push(site)),
        TyV::Ref(site) => sites.contains(site),
        _ => true,
    }
}

/// Whether every back-edge in the first `n` fields leads to a type around it.
pub open spec fn fields_closed(fields: Seq<FieldV>, n: nat, sites: Seq<Site>) -> bool
    decreases fields, n,
{
    if n == 0 || n > fields.len() {
        true
    } else {
        closed_in(fields[n - 1].ty, sites) && fields_closed(fields, (n - 1) as nat, sites)
    }
}

proof fn lemma_fields_closed(fields: Seq<FieldV>, n: nat, sites: Seq<Site>)
    requires
        n <= fields.len(),
    ensures
        fields_closed(fields, n, sites) <==> forall|k: int|
            0 <= k < n ==> closed_in((#[trigger] fields[k]).ty, sites),
    decreases n,
{
    if n > 0 {
        lemma_fields_closed(fields, (n - 1) as nat, sites);
    }
}

/// Sites that no back-edge leads to can be left out.
proof fn lemma_closed_less(ty: TyV, more: Seq<Site>, sites: Seq<Site>, site: Site)
    requires
        closed_in(ty, more),
        !crate::plan::mentions(ty, site),
        forall|s: Site| #[trigger] more.contains(s) && s != site ==> sites.contains(s),
    ensures
        closed_in(ty, sites),
    decreases ty, 0nat,
{
    match ty {
        TyV::Struct { name, fields } => lemma_fields_less(fields, fields.len(), more, sites, site),
        TyV::Tuple { fields } => lemma_fields_less(fields, fields.len(), more, sites, site),
        TyV::Vec { elem, .. } => lemma_closed_less(*elem, more, sites, site),
        TyV::Opt { inner, .. } => lemma_closed_less(*inner, more, sites, site),
        TyV::BTreeMap { key, val, .. } => {
            lemma_closed_less(*key, more, sites, site);
            lemma_closed_less(*val, more, sites, site);
        },
        TyV::Boxed { inner, .. } => lemma_closed_less(*inner, more, sites, site),
        TyV::Rec { site: own, body } => {
            let a = more.push(own);
            let b = sites.push(own);
            assert forall|s: Site| #[trigger] a.contains(s) && s != site implies b.contains(s) by {
                let k = choose|k: int| 0 <= k < a.len() && a[k] == s;
                if k < more.len() {
                    assert(more[k] == s);
                    assert(more.contains(s));
                    let j = choose|j: int| 0 <= j < sites.len() && sites[j] == s;
                    assert(b[j] == s);
                } else {
                    assert(b[sites.len() as int] == s);
                }
            }
            lemma_closed_less(*body, a, b, site);
        },
        _ => {},
    }
}

proof fn lemma_fields_less(fields: Seq<FieldV>, n: nat, more: Seq<Site>, sites: Seq<Site>, site: Site)
    requires
        fields_closed(fields, n, more),
        !crate::plan::any_mentions(fields, n, site),
        forall|s: Site| #[trigger] more.contains(s) && s != site ==> sites.contains(s),
    ensures
        fields_closed(fields, n, sites),
    decreases fields, n,
{
    if !(n == 0 || n > fields.len()) {
        lemma_closed_less(fields[n - 1].ty, more, sites, site);
        lemma_fields_less(fields, (n - 1) as nat, more, sites, site);
    }
}

proof fn lemma_tied(site: Site, body: TyV, memo: Seq<Site>)
    requires
        closed_in(body, memo.push(site)),
    ensures
        closed_in(tied(site, body), memo),
{
    if !crate::plan::mentions(body, site) {
        let more = memo.push(site);
        assert forall|s: Site| #[trigger] more.contains(s) && s != site implies memo.contains(s) by {
            let k = choose|k: int| 0 <= k < more.len() && more[k] == s;
            assert(memo[k] == s);
        }
        lemma_closed_less(body, more, memo, site);
    }
}

proof fn lemma_layout_closed(units: Seq<Unit>, slide: u64, site: Site, memo: Seq<Site>, hops: nat)
    ensures
        layout_of(units, slide, site, memo, hops) matches Ok(ty) ==> closed_in(ty, memo),
    decreases size_of(units) + 1 - memo.len(), hops, 2nat, 0nat,
{
    if layout_of(units, slide, site, memo, hops) is Ok {
        let unit = unit_at(units, site.unit)->0;
        let off = crate::die::stripped(unit.dies(), site.off)->Ok_0;
        let def = crate::index::site_of(units, Site { unit: site.unit, off })->Ok_0;
        let unit = unit_at(units, def.unit)->0;
        let name = label(unit, def.off);
        let t = crate::die::tag_of(unit.dies(), def.off)->0;
        if is_transparent(name) {
            let inner = crate::die::param_of(unit, def.off, None)->Ok_0->0;
            lemma_layout_closed(units, slide, Site { unit: def.unit, off: inner }, memo, (hops - 1) as nat);
        } else if !memo.contains(def) {
            let inside = memo.push(def);
            if t == TAG_BASE_TYPE {
                lemma_tied(def, base_layout(unit, def.off, name), memo);
            } else if t == TAG_POINTER_TYPE {
                lemma_boxed_closed(units, slide, def, name, inside);
                lemma_tied(def, boxed_layout(units, slide, def, name, inside)->Ok_0, memo);
            } else if t == TAG_STRUCTURE_TYPE {
                lemma_struct_closed(units, slide, def, name, inside);
                lemma_tied(def, struct_layout(units, slide, def, name, inside)->Ok_0, memo);
            } else if t == TAG_ENUMERATION_TYPE {
                lemma_tied(def, TyV::Unknown("enum "@ + name), memo);
            } else {
                lemma_tied(def, TyV::Unknown(name), memo);
            }
        }
    }
}

proof fn lemma_part_closed(units: Seq<Unit>, slide: u64, ui: usize, off: usize, memo: Seq<Site>)
    ensures
        part_layout(units, slide, ui, off, memo) matches Ok(ty) ==> closed_in(ty, memo),
    decreases size_of(units) + 1 - memo.len(), size_of(units), 3nat, 0nat,
{
    lemma_layout_closed(units, slide, Site { unit: ui, off }, memo, size_of(units));
}

proof fn lemma_boxed_closed(units: Seq<Unit>, slide: u64, def: Site, name: Seq<char>, memo: Seq<Site>)
    ensures
        boxed_layout(units, slide, def, name, memo) matches Ok(ty) ==> closed_in(ty, memo),
    decreases size_of(units) + 1 - memo.len(), size_of(units) + 1, 0nat, 0nat,
{
    let unit = units[def.unit as int];
    if let Some(pointee) = crate::die::type_of(unit.dies(), def.off) {
        lemma_part_closed(units, slide, def.unit, pointee, memo);
    }
}

proof fn lemma_struct_closed(units: Seq<Unit>, slide: u64, def: Site, name: Seq<char>, memo: Seq<Site>)
    ensures
        struct_layout(units, slide, def, name, memo) matches Ok(ty) ==> closed_in(ty, memo),
    decreases size_of(units) + 1 - memo.len(), size_of(units) + 1, 2nat, 0nat,
{
    let unit = units[def.unit as int];
    if name == "String"@ || name == "&str"@ {
    } else if crate::text::begins(name, "Vec<"@) {
        if let Ok(Some(elem_off)) = crate::die::param_of(unit, def.off, None) {
            lemma_part_closed(units, slide, def.unit, elem_off, memo);
        }
    } else if crate::text::begins(name, "BTreeMap<"@) {
        if let Ok(Some(k_off)) = crate::die::param_of(unit, def.off, Some("K"@)) {
            lemma_part_closed(units, slide, def.unit, k_off, memo);
        }
        if let Ok(Some(v_off)) = crate::die::param_of(unit, def.off, Some("V"@)) {
            lemma_part_closed(units, slide, def.unit, v_off, memo);
        }
    } else {
        match crate::die::child_where(unit, def.off, TAG_VARIANT_PART, None) {
            Err(f) => {},
            Ok(Some(vp)) => {
                if let Ok(kids) = crate::die::children(unit, vp) {
                    lemma_variants_closed(
                        units,
                        slide,
                        def.unit,
                        kids,
                        0,
                        Variants { none: None, some: None },
                        memo,
                    );
                }
            },
            Ok(None) => {
                if let Ok(kids) = crate::die::children(unit, def.off) {
                    lemma_fields_among_closed(units, slide, def.unit, kids, 0, memo);
                    if let Ok(fields) = fields_among(units, slide, def.unit, kids, 0, memo) {
                        lemma_fields_closed(fields, fields.len(), memo);
                        if crate::tuple::is_tuple(fields) {
                            let sorted = crate::tuple::by_position(fields, fields.len());
                            crate::tuple::law_fields_by_position(fields, fields.len());
                            assert(fields.take(fields.len() as int) =~= fields);
                            assert forall|i: int| 0 <= i < sorted.len() implies closed_in(
                                (#[trigger] sorted[i]).ty,
                                memo,
                            ) by {
                                broadcast use vstd::seq_lib::group_to_multiset_ensures;

                                assert(sorted.contains(sorted[i]));
                                assert(sorted.to_multiset().count(sorted[i]) > 0);
                                assert(fields.contains(sorted[i]));
                                let j = choose|j: int| 0 <= j < fields.len() && fields[j] == sorted[i];
                                assert(closed_in(fields[j].ty, memo));
                            }
                            lemma_fields_closed(sorted, sorted.len(), memo);
                        }
                    }
                }
            },
        }
    }
}

proof fn lemma_fields_among_closed(
    units: Seq<Unit>,
    slide: u64,
    ui: usize,
    kids: Seq<usize>,
    k: nat,
    memo: Seq<Site>,
)
    ensures
        fields_among(units, slide, ui, kids, k, memo) matches Ok(fields) ==> forall|i: int|
            0 <= i < fields.len() ==> closed_in((#[trigger] fields[i]).ty, memo),
    decreases size_of(units) + 1 - memo.len(), size_of(units) + 1, 0nat, kids.len() - k,
{
    let es = units[ui as int].dies();
    if k < kids.len() {
        lemma_fields_among_closed(units, slide, ui, kids, k + 1, memo);
        if crate::die::tag_of(es, kids[k as int]) == Some(TAG_MEMBER) {
            if let Some(t) = crate::die::type_of(es, kids[k as int]) {
                lemma_part_closed(units, slide, ui, t, memo);
            }
        }
    }
}

proof fn lemma_variants_closed(
    units: Seq<Unit>,
    slide: u64,
    ui: usize,
    kids: Seq<usize>,
    k: nat,
    before: Variants,
    memo: Seq<Site>,
)
    requires
        before.some matches Some((d, o, ty)) ==> closed_in(ty, memo),
    ensures
        variants_among(units, slide, ui, kids, k, before, memo) matches Ok(vs) ==> (vs.some matches Some((
            d,
            o,
            ty,
        )) ==> closed_in(ty, memo)),
    decreases size_of(units) + 1 - memo.len(), size_of(units) + 1, 0nat, kids.len() - k,
{
    if k < kids.len() {
        let unit = units[ui as int];
        let es = unit.dies();
        let v = kids[k as int];
        if let Ok(Some(pm)) = crate::die::child_where(unit, v, TAG_MEMBER, None) {
            if let Some(payload) = crate::die::type_of(es, pm) {
                if let Ok(payload) = crate::die::stripped(es, payload) {
                    if let Ok(Some(f0)) = crate::die::child_where(unit, payload, TAG_MEMBER, Some("__0"@)) {
                        if let Some(t) = crate::die::type_of(es, f0) {
                            lemma_part_closed(units, slide, ui, t, memo);
                        }
                    }
                }
            }
        }
        if let Ok(now) = variant_at(units, slide, ui, v, before, memo) {
            lemma_variants_closed(units, slide, ui, kids, k + 1, now, memo);
        }
    }
}

/// Every back-edge in the layout of a type leads to a type around it: a cycle among
/// types is tied off where it closes.
pub proof fn law_back_edges_are_tied(units: Seq<Unit>, slide: u64, site: Site)
    ensures
        classified(units, slide, site) matches Ok(ty) ==> closed_in(ty, Seq::empty()),
{
    lemma_layout_closed(units, slide, site, Seq::empty(), size_of(units));
}

} // verus!
