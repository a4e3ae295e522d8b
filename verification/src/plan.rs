//! The layout of a destination type. A [`Ty`] is everything that binding needs:
//! field offsets, primitive sizes, and where the pointer, capacity and length
//! words sit inside `String` and `Vec` (their order is not promised, so it is
//! recorded here). A type that contains itself is written with a binder,
//! [`Ty::Rec`], and back-edges to it, [`Ty::Ref`].
use crate::text::bytes_of;
use vstd::prelude::*;
use vstd::utf8::*;

verus! {

/// The type DIE a layout was read from: the unit's index and the DIE's offset
/// in that unit.
#[derive(Clone, Copy, PartialEq, Eq, Structural, Debug)]
pub struct Site {
    pub unit: usize,
    pub off: usize,
}

/// Where the data pointer, the capacity and the length sit inside a `Vec`-like
/// value.
#[derive(Clone, Copy, PartialEq, Eq, Structural, Debug)]
pub struct SeqLayout {
    pub ptr_off: usize,
    pub cap_off: usize,
    pub len_off: usize,
}

/// The layout of a type.
#[derive(Debug)]
pub enum Ty {
    Bool,
    Char,
    /// An unsigned integer of that many bytes.
    U(u8),
    /// A signed integer of that many bytes.
    I(u8),
    F32,
    F64,
    /// Zero-sized: a value is accepted and nothing is written.
    Unit,
    Struct { name: String, fields: Vec<FieldTy> },
    /// Bound from an array, position by position.
    Tuple { fields: Vec<FieldTy> },
    /// `alloc::string::String`: UTF-8 bytes behind a `Vec<u8>`.
    Str(SeqLayout),
    /// `alloc::vec::Vec<T>`.
    Vec { elem: Box<Ty>, elem_size: u64, elem_align: u64, seq: SeqLayout },
    /// A `&str` fat pointer.
    StrRef { ptr_off: usize, len_off: usize },
    /// `Option<T>`. In the niche encoding `some_discr` is `None` and the
    /// discriminant overlaps the payload; in the tagged encoding the
    /// discriminant stands beside it.
    Opt {
        disc_off: usize,
        disc_size: u8,
        none_discr: u128,
        some_discr: Option<u128>,
        payload_off: usize,
        size: u64,
        inner: Box<Ty>,
    },
    /// `BTreeMap<K, V>`, which is built by calling the two functions whose
    /// addresses are recorded here.
    BTreeMap {
        key: Box<Ty>,
        key_size: u64,
        val: Box<Ty>,
        val_size: u64,
        new_at: u64,
        insert: u64,
    },
    /// `Box<T>`: a pointer to a separately allocated `T`.
    Boxed { inner: Box<Ty>, size: u64, align: u64 },
    /// The type at `site`, whose body refers back to it.
    Rec { site: Site, body: Box<Ty> },
    /// A back-edge to the enclosing `Rec` of that site.
    Ref(Site),
    /// A type that cannot be bound, by name.
    Unknown(String),
}

/// One field of a struct or tuple.
#[derive(Debug)]
pub struct FieldTy {
    pub name: String,
    pub offset: usize,
    pub ty: Ty,
}

/// What a [`Ty`] says.
pub enum TyV {
    Bool,
    Char,
    U(u8),
    I(u8),
    F32,
    F64,
    Unit,
    Struct { name: Seq<char>, fields: Seq<FieldV> },
    Tuple { fields: Seq<FieldV> },
    Str(SeqLayout),
    Vec { elem: Box<TyV>, elem_size: u64, elem_align: u64, seq: SeqLayout },
    StrRef { ptr_off: usize, len_off: usize },
    Opt {
        disc_off: usize,
        disc_size: u8,
        none_discr: u128,
        some_discr: Option<u128>,
        payload_off: usize,
        size: u64,
        inner: Box<TyV>,
    },
    BTreeMap {
        key: Box<TyV>,
        key_size: u64,
        val: Box<TyV>,
        val_size: u64,
        new_at: u64,
        insert: u64,
    },
    Boxed { inner: Box<TyV>, size: u64, align: u64 },
    Rec { site: Site, body: Box<TyV> },
    Ref(Site),
    Unknown(Seq<char>),
}

/// What a [`FieldTy`] says.
pub struct FieldV {
    pub name: Seq<char>,
    pub offset: usize,
    pub ty: TyV,
}

pub open spec fn ty_view(t: Ty) -> TyV
    decreases t,
{
    match t {
        Ty::Bool => TyV::Bool,
        Ty::Char => TyV::Char,
        Ty::U(n) => TyV::U(n),
        Ty::I(n) => TyV::I(n),
        Ty::F32 => TyV::F32,
        Ty::F64 => TyV::F64,
        Ty::Unit => TyV::Unit,
        Ty::Struct { name, fields } => TyV::Struct { name: name@, fields: fields_view(fields@) },
        Ty::Tuple { fields } => TyV::Tuple { fields: fields_view(fields@) },
        Ty::Str(seq) => TyV::Str(seq),
        Ty::Vec { elem, elem_size, elem_align, seq } => TyV::Vec {
            elem: Box::new(ty_view(*elem)),
            elem_size,
            elem_align,
            seq,
        },
        Ty::StrRef { ptr_off, len_off } => TyV::StrRef { ptr_off, len_off },
        Ty::Opt { disc_off, disc_size, none_discr, some_discr, payload_off, size, inner } => TyV::Opt {
            disc_off,
            disc_size,
            none_discr,
            some_discr,
            payload_off,
            size,
            inner: Box::new(ty_view(*inner)),
        },
        Ty::BTreeMap { key, key_size, val, val_size, new_at, insert } => TyV::BTreeMap {
            key: Box::new(ty_view(*key)),
            key_size,
            val: Box::new(ty_view(*val)),
            val_size,
            new_at,
            insert,
        },
        Ty::Boxed { inner, size, align } => TyV::Boxed {
            inner: Box::new(ty_view(*inner)),
            size,
            align,
        },
        Ty::Rec { site, body } => TyV::Rec { site, body: Box::new(ty_view(*body)) },
        Ty::Ref(site) => TyV::Ref(site),
        Ty::Unknown(what) => TyV::Unknown(what@),
    }
}

pub open spec fn field_view(f: FieldTy) -> FieldV
    decreases f,
{
    FieldV { name: f.name@, offset: f.offset, ty: ty_view(f.ty) }
}

pub open spec fn fields_view(v: Seq<FieldTy>) -> Seq<FieldV>
    decreases v,
{
    Seq::new(
        v.len(),
        |k: int|
            if 0 <= k < v.len() {
                field_view(v[k])
            } else {
                arbitrary()
            },
    )
}

impl View for Ty {
    type V = TyV;

    open spec fn view(&self) -> TyV {
        ty_view(*self)
    }
}

impl View for FieldTy {
    type V = FieldV;

    open spec fn view(&self) -> FieldV {
        field_view(*self)
    }
}

/// How large a type is: how many types, fields and bytes of names there are in it.
pub open spec fn weight(t: TyV) -> nat
    decreases t, 0nat,
{
    match t {
        TyV::Struct { name, fields } => 1 + weight_from(fields, 0),
        TyV::Tuple { fields } => 1 + weight_from(fields, 0),
        TyV::Vec { elem, .. } => 1 + weight(*elem),
        TyV::Opt { inner, .. } => 1 + weight(*inner),
        TyV::BTreeMap { key, val, .. } => 1 + weight(*key) + weight(*val),
        TyV::Boxed { inner, .. } => 1 + weight(*inner),
        TyV::Rec { site: _, body } => 1 + weight(*body),
        _ => 1,
    }
}

/// How large fields are, from the `k`th on.
pub open spec fn weight_from(fields: Seq<FieldV>, k: nat) -> nat
    decreases fields, fields.len() - k,
{
    if k >= fields.len() {
        0
    } else {
        1 + encode_utf8(fields[k as int].name).len() + weight(fields[k as int].ty) + weight_from(fields, k + 1)
    }
}

/// How many types that contain themselves there are in a type.
pub open spec fn recs(t: TyV) -> nat
    decreases t, 0nat,
{
    match t {
        TyV::Struct { name, fields } => recs_from(fields, 0),
        TyV::Tuple { fields } => recs_from(fields, 0),
        TyV::Vec { elem, .. } => recs(*elem),
        TyV::Opt { inner, .. } => recs(*inner),
        TyV::BTreeMap { key, val, .. } => recs(*val),
        TyV::Boxed { inner, .. } => recs(*inner),
        TyV::Rec { site: _, body } => 1 + recs(*body),
        _ => 0,
    }
}

/// How many types that contain themselves there are in fields, from the `k`th on.
pub open spec fn recs_from(fields: Seq<FieldV>, k: nat) -> nat
    decreases fields, fields.len() - k,
{
    if k >= fields.len() {
        0
    } else {
        recs(fields[k as int].ty) + recs_from(fields, k + 1)
    }
}

/// The largest size that code is made for: its instructions, of which there are no more
/// than a thousand for each part of a type, can then all be told apart by numbers of
/// 31 bits.
pub const MAX_WEIGHT: u64 = 2_000_000;

/// A number, or the largest where it is larger.
pub open spec fn capped(n: nat) -> u64 {
    if n > u64::MAX {
        u64::MAX
    } else {
        n as u64
    }
}

/// How large a type is, up to the largest number.
pub fn weigh(ty: &Ty) -> (r: u64)
    ensures
        r == capped(weight(ty@)),
    decreases ty,
{
    match ty {
        Ty::Struct { name, fields } => weigh_fields(fields).saturating_add(1),
        Ty::Tuple { fields } => weigh_fields(fields).saturating_add(1),
        Ty::Vec { elem, .. } => weigh(elem).saturating_add(1),
        Ty::Opt { inner, .. } => weigh(inner).saturating_add(1),
        Ty::BTreeMap { key, val, .. } => weigh(key).saturating_add(weigh(val)).saturating_add(1),
        Ty::Boxed { inner, .. } => weigh(inner).saturating_add(1),
        Ty::Rec { site: _, body } => weigh(body).saturating_add(1),
        _ => 1,
    }
}

fn weigh_fields(fields: &Vec<FieldTy>) -> (r: u64)
    ensures
        r == capped(weight_from(fields_view(fields@), 0)),
    decreases fields,
{
    let mut k: usize = fields.len();
    let mut sum: u64 = 0;
    while k > 0
        invariant
            k <= fields@.len(),
            sum == capped(weight_from(fields_view(fields@), k as nat)),
        decreases k,
    {
        k -= 1;
        assert(decreases_to!(*fields => fields@));
        assert(decreases_to!(fields@ => fields@[k as int]));
        assert(decreases_to!(fields@[k as int] => fields@[k as int].ty));
        assert(fields_view(fields@)[k as int] == fields@[k as int]@);
        let name: usize = bytes_of(fields[k].name.as_str()).len();
        sum = sum.saturating_add(weigh(&fields[k].ty)).saturating_add(name as u64).saturating_add(1);
    }
    sum
}

/// Whether a back-edge to `site` occurs in the type.
pub open spec fn mentions(t: TyV, site: Site) -> bool
    decreases t, 0nat,
{
    match t {
        TyV::Struct { name, fields } => any_mentions(fields, fields.len(), site),
        TyV::Tuple { fields } => any_mentions(fields, fields.len(), site),
        TyV::Vec { elem, .. } => mentions(*elem, site),
        TyV::Opt { inner, .. } => mentions(*inner, site),
        TyV::BTreeMap { key, val, .. } => mentions(*key, site) || mentions(*val, site),
        TyV::Boxed { inner, .. } => mentions(*inner, site),
        TyV::Rec { site: _, body } => mentions(*body, site),
        TyV::Ref(s) => s == site,
        _ => false,
    }
}

/// Whether a back-edge to `site` occurs in one of the first `n` fields.
pub open spec fn any_mentions(fields: Seq<FieldV>, n: nat, site: Site) -> bool
    decreases fields, n,
{
    if n == 0 || n > fields.len() {
        false
    } else {
        mentions(fields[n - 1].ty, site) || any_mentions(fields, (n - 1) as nat, site)
    }
}

impl Ty {
    /// Whether a back-edge to `site` occurs in the type.
    pub fn mentions(&self, site: Site) -> (r: bool)
        ensures
            r == mentions(self@, site),
        decreases self,
    {
        match self {
            Ty::Struct { name, fields } => fields_mention(fields, site),
            Ty::Tuple { fields } => fields_mention(fields, site),
            Ty::Vec { elem, .. } => elem.mentions(site),
            Ty::Opt { inner, .. } => inner.mentions(site),
            Ty::BTreeMap { key, val, .. } => key.mentions(site) || val.mentions(site),
            Ty::Boxed { inner, .. } => inner.mentions(site),
            Ty::Rec { site: _, body } => body.mentions(site),
            Ty::Ref(s) => *s == site,
            _ => false,
        }
    }
}

fn fields_mention(fields: &Vec<FieldTy>, site: Site) -> (r: bool)
    ensures
        r == any_mentions(fields_view(fields@), fields@.len(), site),
    decreases fields,
{
    let mut i: usize = 0;
    let mut found: bool = false;
    while i < fields.len()
        invariant
            i <= fields.len(),
            found == any_mentions(fields_view(fields@), i as nat, site),
        decreases fields.len() - i,
    {
        assert(decreases_to!(*fields => fields@));
        assert(decreases_to!(fields@ => fields@[i as int]));
        assert(decreases_to!(fields@[i as int] => fields@[i as int].ty));
        assert(fields_view(fields@)[i as int].ty == fields@[i as int].ty@);
        found = fields[i].ty.mentions(site) || found;
        i += 1;
    }
    found
}

/// Whether a type stands directly in another.
pub open spec fn is_part(p: TyV, ty: TyV) -> bool {
    match ty {
        TyV::Struct { name, fields } => exists|k: int| 0 <= k < fields.len() && (#[trigger] fields[k]).ty == p,
        TyV::Tuple { fields } => exists|k: int| 0 <= k < fields.len() && (#[trigger] fields[k]).ty == p,
        TyV::Vec { elem, .. } => p == *elem,
        TyV::Opt { inner, .. } => p == *inner,
        TyV::BTreeMap { key, val, .. } => p == *key || p == *val,
        TyV::Boxed { inner, .. } => p == *inner,
        TyV::Rec { site, body } => p == *body,
        _ => false,
    }
}

/// Whether a type stands in another, so deep.
pub open spec fn is_in(t: TyV, ty: TyV, n: nat) -> bool
    decreases n,
{
    if n == 0 {
        t == ty
    } else {
        exists|p: TyV| #[trigger] is_part(p, ty) && is_in(t, p, (n - 1) as nat)
    }
}

} // verus!
