//! Reading debugging information: from the bytes of an object file to units of
//! plain entries. The object file is taken apart by `object` and its DWARF
//! sections by `gimli`.
use crate::classify::Store;
use crate::die::{
    Attr, Entry, Fault, Location, Name, Ranges, Span, Unit, AT_ABSTRACT_ORIGIN, AT_ALIGNMENT, AT_BYTE_SIZE,
    AT_DATA_MEMBER_LOCATION, AT_DECLARATION, AT_DISCR, AT_DISCR_VALUE, AT_ENCODING, AT_FRAME_BASE,
    AT_LOW_PC, AT_NAME, AT_SPECIFICATION, AT_TYPE, TAG_SUBPROGRAM,
};
use crate::text::{chars_of, str_eq};
use gimli::{AttributeValue, DwAt, EndianSlice, RawLocListEntry, RawRngListEntry, RunTimeEndian};
use object::{Object, ObjectSection, ObjectSegment};
use vstd::prelude::*;
use vstd::string::*;

verus! {

pub const AT_LOCATION: u16 = 0x02;

pub const AT_HIGH_PC: u16 = 0x12;

pub const AT_RANGES: u16 = 0x55;

// ---------------------------------------------------------------------------
// Object files.
// ---------------------------------------------------------------------------

/// A section of an object file.
pub struct Section {
    /// Its name, where that is UTF-8.
    pub name: Option<String>,
    pub address: u64,
    pub size: u64,
    /// Its bytes in the file, where they can be read.
    pub data: Option<&'static [u8]>,
}

/// What a [`Section`] says.
pub struct SectionV {
    pub name: Option<Seq<char>>,
    pub address: u64,
    pub size: u64,
    pub data: Option<Seq<u8>>,
}

impl View for Section {
    type V = SectionV;

    open spec fn view(&self) -> SectionV {
        SectionV {
            name: match self.name {
                Some(s) => Some(s@),
                None => None,
            },
            address: self.address,
            size: self.size,
            data: match self.data {
                Some(b) => Some(b@),
                None => None,
            },
        }
    }
}

/// An object file: a collection of sections.
#[verifier::external_body]
pub struct Image {
    file: object::File<'static>,
}

/// The bytes that an object file was read from.
pub uninterp spec fn image_bytes(i: Image) -> Seq<u8>;

/// Whether `object::File::parse` takes these bytes.
pub uninterp spec fn is_object(bytes: Seq<u8>) -> bool;

/// What `is_little_endian` says of the object file in these bytes.
pub uninterp spec fn object_little_endian(bytes: Seq<u8>) -> bool;

/// The section at a position of the object file in these bytes.
pub uninterp spec fn object_section(bytes: Seq<u8>, k: nat) -> Option<SectionV>;

/// The uncompressed contents of the section at a position.
pub uninterp spec fn object_contents(bytes: Seq<u8>, k: nat) -> Option<Seq<u8>>;

/// The section that `section_by_name` finds.
pub uninterp spec fn object_named(bytes: Seq<u8>, name: Seq<char>) -> Option<SectionV>;

/// `object::File::parse`: reads an object file of any format. Which bytes are
/// one is for `object` to say; the result is the object file of these bytes.
#[verifier::external_body]
pub(crate) fn parse_object(bytes: &'static [u8]) -> (r: Option<Image>)
    ensures
        r is Some <==> is_object(bytes@),
        r matches Some(i) ==> image_bytes(i) == bytes@,
{
    object::File::parse(bytes).ok().map(|file| Image { file })
}

/// `object::Object::is_little_endian`: a property of the object file.
#[verifier::external_body]
fn little_endian(i: &Image) -> (r: bool)
    ensures
        r == object_little_endian(image_bytes(*i)),
{
    i.file.is_little_endian()
}

/// `object::Object::sections` and the `ObjectSection` accessors: the section at
/// a position of the file's section table.
#[verifier::external_body]
fn section_at(i: &Image, k: usize) -> (r: Option<Section>)
    ensures
        match object_section(image_bytes(*i), k as nat) {
            Some(s) => r matches Some(got) && got@ == s,
            None => r is None,
        },
{
    i.file.sections().nth(k).map(
        |s| Section {
            name: s.name().ok().map(|n| n.to_string()),
            address: s.address(),
            size: s.size(),
            data: s.data().ok(),
        },
    )
}

/// `object::ObjectSection::uncompressed_data`: the contents of the section at a
/// position, decompressed where they are compressed; nothing where there is no
/// such section or its contents cannot be had. They are kept for the rest of the
/// process.
#[verifier::external_body]
fn contents_at(i: &Image, k: usize) -> (r: Option<&'static [u8]>)
    ensures
        match object_contents(image_bytes(*i), k as nat) {
            Some(b) => r matches Some(got) && got@ == b,
            None => r is None,
        },
{
    let data = i.file.sections().nth(k)?.uncompressed_data().ok()?;
    Some(Box::leak(data.into_owned().into_boxed_slice()))
}

/// `object::Object::section_by_name`: the section of that name, by the rules of
/// the file's format.
#[verifier::external_body]
pub(crate) fn section_by_name(i: &Image, name: &str) -> (r: Option<Section>)
    ensures
        match object_named(image_bytes(*i), name@) {
            Some(s) => r matches Some(got) && got@ == s,
            None => r is None,
        },
{
    i.file.section_by_name(name).map(
        |s| Section {
            name: s.name().ok().map(|n| n.to_string()),
            address: s.address(),
            size: s.size(),
            data: s.data().ok(),
        },
    )
}

/// The segment at a position of the object file in these bytes.
pub uninterp spec fn object_segment(bytes: Seq<u8>, k: nat) -> Option<SectionV>;

/// `object::Object::segments` and the `ObjectSegment` accessors: the segment at a
/// position of the file's list of segments.
#[verifier::external_body]
fn segment_at(i: &Image, k: usize) -> (r: Option<Section>)
    ensures
        match object_segment(image_bytes(*i), k as nat) {
            Some(s) => r matches Some(got) && got@ == s,
            None => r is None,
        },
{
    i.file.segments().nth(k).map(
        |s| Section {
            name: s.name().ok().flatten().map(|n| n.to_string()),
            address: s.address(),
            size: s.size(),
            data: s.data().ok(),
        },
    )
}

/// Whether the segment at a position is the first of that name.
pub open spec fn is_first_segment(bytes: Seq<u8>, name: Seq<char>, k: nat) -> bool {
    &&& object_segment(bytes, k) matches Some(s) && s.name == Some(name)
    &&& forall|j: nat|
        j < k ==> ((#[trigger] object_segment(bytes, j)) matches Some(s) && s.name != Some(name))
}

/// The first segment of that name, among those that a machine can count.
pub open spec fn segment_named(bytes: Seq<u8>, name: Seq<char>) -> Option<SectionV> {
    if exists|k: nat| k < usize::MAX && #[trigger] is_first_segment(bytes, name, k) {
        object_segment(
            bytes,
            choose|k: nat| k < usize::MAX && #[trigger] is_first_segment(bytes, name, k),
        )
    } else {
        None
    }
}

/// Finds the first segment of that name.
pub(crate) fn segment_by_name(i: &Image, name: &str) -> (r: Option<Section>)
    ensures
        match segment_named(image_bytes(*i), name@) {
            Some(s) => r matches Some(got) && got@ == s,
            None => r is None,
        },
{
    let ghost bytes = image_bytes(*i);
    let mut k: usize = 0;
    while k < usize::MAX
        invariant
            bytes == image_bytes(*i),
            forall|j: nat|
                j < k ==> ((#[trigger] object_segment(bytes, j)) matches Some(s) && s.name != Some(name@)),
        decreases usize::MAX - k,
    {
        match segment_at(i, k) {
            None => {
                proof {
                    if segment_named(bytes, name@) is Some {
                        let at = choose|at: nat| at < usize::MAX && #[trigger] is_first_segment(bytes, name@, at);
                        if at < k {
                            assert(object_segment(bytes, at) is Some);
                        } else {
                            assert(at == k || object_segment(bytes, k as nat) is Some);
                        }
                    } else if exists|at: nat| at < usize::MAX && #[trigger] is_first_segment(bytes, name@, at) {
                        let at = choose|at: nat| at < usize::MAX && #[trigger] is_first_segment(bytes, name@, at);
                        assert(object_segment(bytes, at) is Some);
                    }
                }
                return None;
            },
            Some(s) => {
                let hit: bool = match &s.name {
                    Some(n) => str_eq(n.as_str(), name),
                    None => false,
                };
                if hit {
                    proof {
                        assert(is_first_segment(bytes, name@, k as nat));
                        let at = choose|at: nat| at < usize::MAX && #[trigger] is_first_segment(bytes, name@, at);
                        if at < k {
                            assert(object_segment(bytes, at) is Some);
                        } else if k < at {
                            assert(object_segment(bytes, k as nat) is Some);
                        }
                    }
                    return Some(s);
                }
            },
        }
        k = k + 1;
    }
    proof {
        if exists|at: nat| at < usize::MAX && #[trigger] is_first_segment(bytes, name@, at) {
            let at = choose|at: nat| at < usize::MAX && #[trigger] is_first_segment(bytes, name@, at);
            assert(object_segment(bytes, at) is Some);
        }
    }
    None
}

// ---------------------------------------------------------------------------
// DWARF.
// ---------------------------------------------------------------------------

/// The contents of named sections.
pub type Table = Seq<(Seq<char>, Seq<u8>)>;

/// What a table of sections holds.
pub open spec fn table_view(t: Seq<(String, &'static [u8])>) -> Table {
    Seq::new(t.len(), |k: int| (t[k].0@, t[k].1@))
}

/// The contents of the last of the first `n` sections that has that name.
pub open spec fn last_named(t: Table, name: Seq<char>, n: nat) -> Option<Seq<u8>>
    decreases n,
{
    if n == 0 || n > t.len() {
        None
    } else if t[n - 1].0 == name {
        Some(t[n - 1].1)
    } else {
        last_named(t, name, (n - 1) as nat)
    }
}

/// The name that a section of that ELF name has in a Mach-O file: two
/// underscores for the dot, and no more than sixteen characters.
pub open spec fn macho_name(elf: Seq<char>) -> Seq<char> {
    let full = "__"@ + elf.skip(1);
    if full.len() > 16 {
        full.take(16)
    } else {
        full
    }
}

/// The contents of the section of that ELF name: under that name, else under
/// its Mach-O name, else nothing.
pub open spec fn section_in(t: Table, elf: Seq<char>) -> Seq<u8> {
    match last_named(t, elf, t.len()) {
        Some(b) => b,
        None => match last_named(t, macho_name(elf), t.len()) {
            Some(b) => b,
            None => Seq::empty(),
        },
    }
}

fn find_section(t: &Vec<(String, &'static [u8])>, name: &Vec<char>) -> (r: Option<&'static [u8]>)
    ensures
        match last_named(table_view(t@), name@, t@.len()) {
            Some(b) => r matches Some(got) && got@ == b,
            None => r is None,
        },
{
    let mut n: usize = t.len();
    while n > 0
        invariant
            n <= t@.len(),
            last_named(table_view(t@), name@, t@.len()) == last_named(
                table_view(t@),
                name@,
                n as nat,
            ),
        decreases n,
    {
        let here: Vec<char> = chars_of(t[n - 1].0.as_str());
        if crate::tramp::same_chars(&here, name) {
            return Some(t[n - 1].1);
        }
        n = n - 1;
    }
    None
}

/// The contents of the section of that ELF name.
fn section_data(t: &Vec<(String, &'static [u8])>, elf: &str) -> (r: &'static [u8])
    requires
        elf@.len() > 0,
    ensures
        r@ == section_in(table_view(t@), elf@),
{
    let name: Vec<char> = chars_of(elf);
    if let Some(b) = find_section(t, &name) {
        return b;
    }
    let mut macho: Vec<char> = Vec::new();
    macho.push('_');
    macho.push('_');
    let mut k: usize = 1;
    proof {
        reveal_strlit("__");
        assert(macho@ =~= ("__"@ + name@.skip(1)).take(2));
    }
    while k < name.len() && macho.len() < 16
        invariant
            1 <= k <= name@.len(),
            macho@.len() == k + 1,
            macho@.len() <= 16,
            macho@ == ("__"@ + name@.skip(1)).take(k + 1),
            "__"@.len() == 2,
        decreases name@.len() - k,
    {
        macho.push(name[k]);
        assert(macho@ =~= ("__"@ + name@.skip(1)).take(k + 2));
        k = k + 1;
    }
    assert(macho@ =~= macho_name(name@));
    match find_section(t, &macho) {
        Some(b) => b,
        None => &[],
    }
}

/// An attribute's value, as far as it is of use here.
pub enum AttrV {
    Udata(u64),
    Sdata(i64),
    UnitRef(usize),
    Exprloc(Seq<u8>),
    Flag(bool),
    Encoding(u8),
    Addr(u64),
    Other,
}

impl View for Attr {
    type V = AttrV;

    open spec fn view(&self) -> AttrV {
        match *self {
            Attr::Udata(n) => AttrV::Udata(n),
            Attr::Sdata(n) => AttrV::Sdata(n),
            Attr::UnitRef(o) => AttrV::UnitRef(o),
            Attr::Exprloc(b) => AttrV::Exprloc(b@),
            Attr::Flag(b) => AttrV::Flag(b),
            Attr::Encoding(e) => AttrV::Encoding(e),
            Attr::Addr(a) => AttrV::Addr(a),
            Attr::Other => AttrV::Other,
        }
    }
}

/// The DWARF of an object file.
#[verifier::external_body]
pub struct Dwarf {
    dwarf: gimli::Dwarf<EndianSlice<'static, RunTimeEndian>>,
}

/// One unit of it.
#[verifier::external_body]
pub struct DwarfUnit {
    unit: gimli::Unit<EndianSlice<'static, RunTimeEndian>>,
}

/// A walk over a unit's entries.
#[verifier::external_body]
pub struct Cursor<'a> {
    at: gimli::EntriesCursor<'a, EndianSlice<'static, RunTimeEndian>>,
}

/// The sections that the DWARF was loaded from.
pub uninterp spec fn dwarf_table(d: Dwarf) -> Seq<(Seq<char>, Seq<u8>)>;

/// The byte order that it was loaded with.
pub uninterp spec fn dwarf_little(d: Dwarf) -> bool;

/// The sections that a unit belongs to.
pub uninterp spec fn unit_table(u: DwarfUnit) -> Seq<(Seq<char>, Seq<u8>)>;

/// The byte order of a unit's sections, and its position among the units.
pub uninterp spec fn unit_place(u: DwarfUnit) -> (bool, nat);

/// The sections that a walk goes over.
pub uninterp spec fn cursor_table(c: Cursor) -> Seq<(Seq<char>, Seq<u8>)>;

/// The byte order of the walk's sections, the position of its unit, and how
/// many steps it has made.
pub uninterp spec fn cursor_place(c: Cursor) -> (bool, nat, nat);

/// What reading the unit at a position comes to: there is one, there is none,
/// or it cannot be read.
pub uninterp spec fn unit_read(t: Seq<(Seq<char>, Seq<u8>)>, le: bool, ui: nat) -> Result<bool, Fault>;

/// What a step of a walk comes to: an entry, the end, or it breaks off.
pub uninterp spec fn dfs_step(t: Seq<(Seq<char>, Seq<u8>)>, le: bool, ui: nat, k: nat) -> Result<
    bool,
    Fault,
>;

/// The offset, depth and tag of an entry.
pub uninterp spec fn die_head(t: Seq<(Seq<char>, Seq<u8>)>, le: bool, ui: nat, k: nat) -> (
    usize,
    isize,
    u16,
);

/// An entry's attribute of that code.
pub uninterp spec fn die_attr(
    t: Seq<(Seq<char>, Seq<u8>)>,
    le: bool,
    ui: nat,
    k: nat,
    at: u16,
) -> Option<AttrV>;

/// An entry's attribute of that code as an unsigned number.
pub uninterp spec fn die_udata(
    t: Seq<(Seq<char>, Seq<u8>)>,
    le: bool,
    ui: nat,
    k: nat,
    at: u16,
) -> Option<u64>;

/// An entry's attribute of that code as text, where it can be read as such.
pub uninterp spec fn die_text(
    t: Seq<(Seq<char>, Seq<u8>)>,
    le: bool,
    ui: nat,
    k: nat,
    at: u16,
) -> Option<Result<Seq<char>, Fault>>;

/// An entry's `j`th address range; nothing after the last.
pub uninterp spec fn die_range(
    t: Seq<(Seq<char>, Seq<u8>)>,
    le: bool,
    ui: nat,
    k: nat,
    j: nat,
) -> Result<Option<(u64, u64)>, Fault>;

/// The `j`th entry of the location list that an entry's attribute stands for;
/// nothing after the last, and nothing at all where it stands for none.
pub uninterp spec fn die_span(
    t: Seq<(Seq<char>, Seq<u8>)>,
    le: bool,
    ui: nat,
    k: nat,
    j: nat,
) -> Option<Result<Option<(u64, u64, Seq<u8>)>, Fault>>;

/// What an attribute refers to by a number.
#[derive(Clone, Copy, PartialEq, Eq, Structural, Debug)]
pub enum Index {
    /// Nothing: the attribute is of another form.
    Nothing,
    /// A string or an address in a table.
    Entry(u64),
    /// A list in the table of range lists.
    Ranges(u64),
    /// A list in the table of location lists.
    Places(u64),
}

/// The largest number that still has a place of eight bytes in a table.
pub const MAX_INDEX: u64 = 0x1fff_ffff_ffff_ffff;

/// The attribute at a position of the first entry of the unit at a position: its
/// code, and what it refers to. Nothing where there is no such attribute, or the
/// entry cannot be read.
pub uninterp spec fn root_part(t: Seq<(Seq<char>, Seq<u8>)>, le: bool, ui: nat, i: nat) -> Option<
    (u16, Index),
>;

/// The attribute at a position of an entry: its code, and what it refers to.
pub uninterp spec fn die_part(
    t: Seq<(Seq<char>, Seq<u8>)>,
    le: bool,
    ui: nat,
    k: nat,
    i: nat,
) -> Option<(u16, Index)>;

/// Whether a unit is in the 64-bit format.
pub uninterp spec fn unit_wide(t: Seq<(Seq<char>, Seq<u8>)>, le: bool, ui: nat) -> bool;

/// Where a unit's tables of range lists and of location lists begin in their sections.
pub uninterp spec fn unit_lists(t: Seq<(Seq<char>, Seq<u8>)>, le: bool, ui: nat) -> (usize, usize);

/// The address that the attribute at a position of an entry stands for.
pub uninterp spec fn part_address(
    t: Seq<(Seq<char>, Seq<u8>)>,
    le: bool,
    ui: nat,
    k: nat,
    i: nat,
) -> Option<u64>;

/// The number that the attribute at a position of an entry holds, without a sign.
pub uninterp spec fn part_number(
    t: Seq<(Seq<char>, Seq<u8>)>,
    le: bool,
    ui: nat,
    k: nat,
    i: nat,
) -> Option<u64>;

/// The addresses that the `j`th part of the range list of an entry's attribute refers
/// to by number; zero for those that it does not. Nothing after the last.
pub uninterp spec fn range_part(
    t: Seq<(Seq<char>, Seq<u8>)>,
    le: bool,
    ui: nat,
    k: nat,
    i: nat,
    j: nat,
) -> Option<(u64, u64)>;

/// The same of the location list that an entry's attribute stands for.
pub uninterp spec fn span_part(
    t: Seq<(Seq<char>, Seq<u8>)>,
    le: bool,
    ui: nat,
    k: nat,
    j: nat,
) -> Option<(u64, u64)>;

/// Whether a reference by number has a place in a table.
pub open spec fn modest(x: Index) -> bool {
    match x {
        Index::Nothing => true,
        Index::Entry(i) => i <= MAX_INDEX,
        Index::Ranges(i) => i <= MAX_INDEX,
        Index::Places(i) => i <= MAX_INDEX,
    }
}

/// Whether the first `n` attributes of a unit's first entry refer to what has a
/// place.
pub open spec fn root_modest(t: Table, le: bool, ui: nat, n: nat) -> bool {
    forall|i: nat| i < n ==> (#[trigger] root_part(t, le, ui, i) matches Some(x) && modest(x.1))
}

/// Whether a unit's first entry refers only to what has a place in its tables.
pub open spec fn root_tame(t: Table, le: bool, ui: nat) -> bool {
    exists|n: nat|
        n < usize::MAX && #[trigger] root_modest(t, le, ui, n) && root_part(t, le, ui, n) is None
}

/// A byte of eight, counted from the lowest.
pub open spec fn byte_of(s: Seq<u8>, le: bool, at: int, i: int) -> int {
    if le {
        s[at + i] as int
    } else {
        s[at + 7 - i] as int
    }
}

/// Two bytes of eight as a number, from the `i`th on.
pub open spec fn two_of(s: Seq<u8>, le: bool, at: int, i: int) -> int {
    byte_of(s, le, at, i) + 0x100 * byte_of(s, le, at, i + 1)
}

/// Eight bytes as a number.
pub open spec fn eight(s: Seq<u8>, le: bool, at: int) -> int {
    two_of(s, le, at, 0) + 0x1_0000 * two_of(s, le, at, 2) + 0x1_0000_0000 * two_of(s, le, at, 4)
        + 0x1_0000_0000_0000 * two_of(s, le, at, 6)
}

/// Whether the place of a list, which its number in a table of eight bytes each stands
/// for, is one: where the table begins in its section, and what it says there, add up.
pub open spec fn list_fits(s: Seq<u8>, le: bool, base: int, i: int) -> bool {
    base + 8 * i + 8 <= s.len() ==> base + eight(s, le, base + 8 * i) <= usize::MAX
}

/// Whether an attribute can be followed: what it refers to has a place.
pub open spec fn followed(t: Table, le: bool, ui: nat, x: Index) -> bool {
    &&& modest(x)
    &&& unit_wide(t, le, ui) ==> match x {
        Index::Ranges(i) => list_fits(
            section_in(t, ".debug_rnglists"@),
            le,
            unit_lists(t, le, ui).0 as int,
            i as int,
        ),
        Index::Places(i) => list_fits(
            section_in(t, ".debug_loclists"@),
            le,
            unit_lists(t, le, ui).1 as int,
            i as int,
        ),
        _ => true,
    }
}

/// Whether the first `n` attributes of an entry can be followed.
pub open spec fn die_modest(t: Table, le: bool, ui: nat, k: nat, n: nat) -> bool {
    forall|i: nat|
        i < n ==> (#[trigger] die_part(t, le, ui, k, i) matches Some(x) && followed(t, le, ui, x.1))
}

/// Whether all attributes of an entry can be followed.
pub open spec fn die_tame(t: Table, le: bool, ui: nat, k: nat) -> bool {
    exists|n: nat|
        n < usize::MAX && #[trigger] die_modest(t, le, ui, k, n) && die_part(t, le, ui, k, n) is None
}

/// Whether addresses that are referred to by number have places.
pub open spec fn both_modest(x: (u64, u64)) -> bool {
    x.0 <= MAX_INDEX && x.1 <= MAX_INDEX
}

/// Whether the first `n` parts of the range list of an attribute refer to what has a
/// place.
pub open spec fn list_modest(t: Table, le: bool, ui: nat, k: nat, i: nat, n: nat) -> bool {
    forall|j: nat| j < n ==> (#[trigger] range_part(t, le, ui, k, i, j) matches Some(x) && both_modest(x))
}

/// Whether the range list of an attribute refers only to what has a place.
pub open spec fn list_tame(t: Table, le: bool, ui: nat, k: nat, i: nat) -> bool {
    exists|n: nat|
        n < usize::MAX && #[trigger] list_modest(t, le, ui, k, i, n) && range_part(t, le, ui, k, i, n) is None
}

/// Whether the attribute at a position is one for a range list, and that refers to
/// what has no place.
pub open spec fn list_wild(t: Table, le: bool, ui: nat, k: nat, i: nat) -> bool {
    die_part(t, le, ui, k, i) matches Some(x) && x.0 == AT_RANGES && !list_tame(t, le, ui, k, i)
}

/// Whether the range lists of an entry's first `n` attributes refer only to what has a
/// place.
pub open spec fn ranges_tame_to(t: Table, le: bool, ui: nat, k: nat, n: nat) -> bool {
    forall|i: nat| i < n ==> !#[trigger] list_wild(t, le, ui, k, i)
}

/// Whether an entry's range lists refer only to what has a place.
pub open spec fn ranges_tame(t: Table, le: bool, ui: nat, k: nat) -> bool {
    exists|n: nat|
        n < usize::MAX && #[trigger] die_modest(t, le, ui, k, n) && die_part(t, le, ui, k, n) is None
            && ranges_tame_to(t, le, ui, k, n)
}

/// Whether the first `n` parts of an entry's location list refer to what has a
/// place.
pub open spec fn spans_modest(t: Table, le: bool, ui: nat, k: nat, n: nat) -> bool {
    forall|j: nat| j < n ==> (#[trigger] span_part(t, le, ui, k, j) matches Some(x) && both_modest(x))
}

/// Whether an entry's location list refers only to what has a place.
pub open spec fn spans_tame(t: Table, le: bool, ui: nat, k: nat) -> bool {
    exists|n: nat|
        n < usize::MAX && #[trigger] spans_modest(t, le, ui, k, n) && span_part(t, le, ui, k, n) is None
}

/// `gimli::Dwarf::load`: DWARF from the sections that the closure hands over,
/// one for each section that `gimli` asks for by its ELF name. It fails only
/// where the closure does.
#[verifier::external_body]
fn load_dwarf(t: &Vec<(String, &'static [u8])>, little: bool) -> (r: Option<Dwarf>)
    ensures
        r is Some,
        dwarf_table(r->0) == table_view(t@),
        dwarf_little(r->0) == little,
{
    let endian = if little { RunTimeEndian::Little } else { RunTimeEndian::Big };
    gimli::Dwarf::load(
        |id| -> Result<EndianSlice<'static, RunTimeEndian>, Fault> {
            Ok(EndianSlice::new(section_data(t, id.name()), endian))
        },
    ).ok().map(|dwarf| Dwarf { dwarf })
}

/// `gimli::DebuggingInformationEntry::attrs` of the first entry of the unit at a
/// position, before the unit is read: one attribute, with the forms that are no
/// references by number taken together.
#[verifier::external_body]
fn root_attr(d: &Dwarf, ui: usize, i: usize) -> (r: Option<(u16, Index)>)
    ensures
        r == root_part(dwarf_table(*d), dwarf_little(*d), ui as nat, i as nat),
{
    let header = d.dwarf.units().nth(ui)?.ok()?;
    let abbreviations = d.dwarf.abbreviations(&header).ok()?;
    let mut at = header.entries(&abbreviations);
    let a = at.next_dfs().ok()??.attrs().get(i)?;
    Some((a.name().0, match a.value() {
        AttributeValue::DebugAddrIndex(x) => Index::Entry(x.0 as u64),
        AttributeValue::DebugStrOffsetsIndex(x) => Index::Entry(x.0 as u64),
        _ => Index::Nothing,
    }))
}

/// `gimli::Dwarf::units` and `gimli::Dwarf::unit`: the unit at a position, read
/// from its header on. `gimli` multiplies the numbers that the first entry refers
/// by with the size of an address or an offset, which must not overflow.
#[verifier::external_body]
fn read_unit(d: &Dwarf, ui: usize) -> (r: Result<Option<DwarfUnit>, Fault>)
    requires
        root_tame(dwarf_table(*d), dwarf_little(*d), ui as nat),
    ensures
        match unit_read(dwarf_table(*d), dwarf_little(*d), ui as nat) {
            Ok(true) => r matches Ok(Some(u)) && unit_table(u) == dwarf_table(*d) && unit_place(u)
                == (dwarf_little(*d), ui as nat),
            Ok(false) => r matches Ok(None),
            Err(_) => r is Err,
        },
{
    match d.dwarf.units().nth(ui) {
        None => Ok(None),
        Some(Err(_)) => Err(Fault::Broken),
        Some(Ok(header)) => match d.dwarf.unit(header) {
            Ok(unit) => Ok(Some(DwarfUnit { unit })),
            Err(_) => Err(Fault::Broken),
        },
    }
}

/// `gimli::Unit::entries`: a walk over a unit's entries, before its first step.
#[verifier::external_body]
fn entries<'a>(u: &'a DwarfUnit) -> (r: Cursor<'a>)
    ensures
        cursor_table(r) == unit_table(*u),
        cursor_place(r) == (unit_place(*u).0, unit_place(*u).1, 0nat),
{
    Cursor { at: u.unit.entries() }
}

/// `gimli::EntriesCursor::next_dfs`: the next step of a walk in depth-first
/// order.
#[verifier::external_body]
fn next_dfs(c: &mut Cursor) -> (r: Result<bool, Fault>)
    ensures
        cursor_table(*final(c)) == cursor_table(*old(c)),
        cursor_place(*final(c)) == (
            cursor_place(*old(c)).0,
            cursor_place(*old(c)).1,
            cursor_place(*old(c)).2 + 1,
        ),
        r == dfs_step(
            cursor_table(*old(c)),
            cursor_place(*old(c)).0,
            cursor_place(*old(c)).1,
            cursor_place(*old(c)).2,
        ),
{
    c.at.next_dfs().map(|e| e.is_some()).map_err(|_| Fault::Broken)
}

/// Whether a walk stands at an entry: the last step came to one.
pub open spec fn at_entry(c: Cursor) -> bool {
    let (le, ui, k) = cursor_place(c);
    k > 0 && dfs_step(cursor_table(c), le, ui, (k - 1) as nat) == Ok::<bool, Fault>(true)
}

/// `offset`, `depth` and `tag` of the entry that a `gimli::EntriesCursor`
/// stands at.
#[verifier::external_body]
fn current_head(c: &Cursor) -> (r: (usize, isize, u16))
    requires
        at_entry(*c),
    ensures
        r == die_head(
            cursor_table(*c),
            cursor_place(*c).0,
            cursor_place(*c).1,
            (cursor_place(*c).2 - 1) as nat,
        ),
{
    let tag: u16 = match c.at.current() {
        Some(e) => e.tag().0,
        None => 0,
    };
    (c.at.offset().0, c.at.depth(), tag)
}

/// `gimli::DebuggingInformationEntry::attr_value` at the entry that a walk
/// stands at, with the forms that are of no use here taken together.
#[verifier::external_body]
fn current_attr(c: &Cursor, at: u16) -> (r: Option<Attr>)
    requires
        at_entry(*c),
    ensures
        match die_attr(
            cursor_table(*c),
            cursor_place(*c).0,
            cursor_place(*c).1,
            (cursor_place(*c).2 - 1) as nat,
            at,
        ) {
            Some(a) => r matches Some(got) && got@ == a,
            None => r is None,
        },
{
    Some(match c.at.current()?.attr_value(DwAt(at))? {
        AttributeValue::Udata(n) => Attr::Udata(n),
        AttributeValue::Sdata(n) => Attr::Sdata(n),
        AttributeValue::UnitRef(o) => Attr::UnitRef(o.0),
        AttributeValue::Exprloc(e) => Attr::Exprloc(e.0.slice().to_vec()),
        AttributeValue::Flag(b) => Attr::Flag(b),
        AttributeValue::Encoding(e) => Attr::Encoding(e.0),
        AttributeValue::Addr(a) => Attr::Addr(a),
        _ => Attr::Other,
    })
}

/// `gimli::Attribute::udata_value` at the entry that a walk stands at.
#[verifier::external_body]
fn current_udata(c: &Cursor, at: u16) -> (r: Option<u64>)
    requires
        at_entry(*c),
    ensures
        r == die_udata(
            cursor_table(*c),
            cursor_place(*c).0,
            cursor_place(*c).1,
            (cursor_place(*c).2 - 1) as nat,
            at,
        ),
{
    c.at.current()?.attr(DwAt(at))?.udata_value()
}

/// Whether a walk goes over a unit of that DWARF.
pub open spec fn belong(d: Dwarf, u: DwarfUnit, c: Cursor) -> bool {
    &&& unit_table(u) == dwarf_table(d)
    &&& cursor_table(c) == dwarf_table(d)
    &&& unit_place(u).0 == dwarf_little(d)
    &&& (cursor_place(c).0, cursor_place(c).1) == unit_place(u)
}

/// `gimli::UnitHeader::format`: whether a unit is in the 64-bit format.
#[verifier::external_body]
fn is_wide(u: &DwarfUnit) -> (r: bool)
    ensures
        r == unit_wide(unit_table(*u), unit_place(*u).0, unit_place(*u).1),
{
    matches!(u.unit.header.format(), gimli::Format::Dwarf64)
}

/// The fields `rnglists_base` and `loclists_base` of a `gimli::Unit`.
#[verifier::external_body]
fn list_bases(u: &DwarfUnit) -> (r: (usize, usize))
    ensures
        r == unit_lists(unit_table(*u), unit_place(*u).0, unit_place(*u).1),
{
    (u.unit.rnglists_base.0, u.unit.loclists_base.0)
}

/// `gimli::DebuggingInformationEntry::attrs` at the entry that a walk stands at:
/// one attribute, with the forms that are no references by number taken together.
#[verifier::external_body]
fn current_part(c: &Cursor, i: usize) -> (r: Option<(u16, Index)>)
    requires
        at_entry(*c),
    ensures
        r == die_part(
            cursor_table(*c),
            cursor_place(*c).0,
            cursor_place(*c).1,
            (cursor_place(*c).2 - 1) as nat,
            i as nat,
        ),
{
    let a = c.at.current()?.attrs().get(i)?;
    Some((a.name().0, match a.value() {
        AttributeValue::DebugAddrIndex(x) => Index::Entry(x.0 as u64),
        AttributeValue::DebugStrOffsetsIndex(x) => Index::Entry(x.0 as u64),
        AttributeValue::DebugRngListsIndex(x) => Index::Ranges(x.0 as u64),
        AttributeValue::DebugLocListsIndex(x) => Index::Places(x.0 as u64),
        _ => Index::Nothing,
    }))
}

/// Whether all attributes of the entry that a walk stands at can be followed.
pub open spec fn tame_at(c: Cursor) -> bool {
    let (le, ui, k) = cursor_place(c);
    die_tame(cursor_table(c), le, ui, (k - 1) as nat)
}

/// `gimli::Dwarf::attr_ranges_offset` and `gimli::Dwarf::raw_ranges`: the addresses
/// that a part of the range list of an attribute, at the entry that a walk stands at,
/// refers to by number.
#[verifier::external_body]
fn current_range_part(d: &Dwarf, u: &DwarfUnit, c: &Cursor, i: usize, j: usize) -> (r: Option<(u64, u64)>)
    requires
        belong(*d, *u, *c),
        at_entry(*c),
        tame_at(*c),
    ensures
        r == range_part(
            cursor_table(*c),
            cursor_place(*c).0,
            cursor_place(*c).1,
            (cursor_place(*c).2 - 1) as nat,
            i as nat,
            j as nat,
        ),
{
    let v = c.at.current()?.attrs().get(i)?.value();
    let offset = d.dwarf.attr_ranges_offset(&u.unit, v).ok()??;
    Some(match d.dwarf.raw_ranges(&u.unit, offset).ok()?.nth(j)?.ok()? {
        RawRngListEntry::BaseAddressx { addr } => (addr.0 as u64, 0),
        RawRngListEntry::StartxEndx { begin, end } => (begin.0 as u64, end.0 as u64),
        RawRngListEntry::StartxLength { begin, .. } => (begin.0 as u64, 0),
        _ => (0, 0),
    })
}

/// `gimli::Dwarf::attr_locations_offset` and `gimli::Dwarf::raw_locations`: the
/// addresses that a part of the location list of the entry that a walk stands at
/// refers to by number.
#[verifier::external_body]
fn current_span_part(d: &Dwarf, u: &DwarfUnit, c: &Cursor, j: usize) -> (r: Option<(u64, u64)>)
    requires
        belong(*d, *u, *c),
        at_entry(*c),
        tame_at(*c),
    ensures
        r == span_part(
            cursor_table(*c),
            cursor_place(*c).0,
            cursor_place(*c).1,
            (cursor_place(*c).2 - 1) as nat,
            j as nat,
        ),
{
    let v = c.at.current()?.attr_value(DwAt(AT_LOCATION))?;
    let offset = d.dwarf.attr_locations_offset(&u.unit, v).ok()??;
    Some(match d.dwarf.raw_locations(&u.unit, offset).ok()?.nth(j)?.ok()? {
        RawLocListEntry::BaseAddressx { addr } => (addr.0 as u64, 0),
        RawLocListEntry::StartxEndx { begin, end, .. } => (begin.0 as u64, end.0 as u64),
        RawLocListEntry::StartxLength { begin, .. } => (begin.0 as u64, 0),
        _ => (0, 0),
    })
}

/// `gimli::Dwarf::attr_string` at the entry that a walk stands at, with what is
/// not UTF-8 replaced. What the attribute refers to by number must have a place.
#[verifier::external_body]
fn current_text(d: &Dwarf, u: &DwarfUnit, c: &Cursor, at: u16) -> (r: Option<Result<String, Fault>>)
    requires
        belong(*d, *u, *c),
        at_entry(*c),
        tame_at(*c),
    ensures
        match die_text(
            cursor_table(*c),
            cursor_place(*c).0,
            cursor_place(*c).1,
            (cursor_place(*c).2 - 1) as nat,
            at,
        ) {
            None => r is None,
            Some(Err(_)) => r matches Some(Err(_)),
            Some(Ok(s)) => r matches Some(Ok(got)) && got@ == s,
        },
{
    let v = c.at.current()?.attr_value(DwAt(at))?;
    match d.dwarf.attr_string(&u.unit, v) {
        Ok(s) => Some(Ok(s.to_string_lossy().into_owned())),
        Err(_) => Some(Err(Fault::Broken)),
    }
}

/// `gimli::Dwarf::attr_address` of an attribute at the entry that a walk stands at.
/// What it refers to by number must have a place.
#[verifier::external_body]
fn current_part_address(d: &Dwarf, u: &DwarfUnit, c: &Cursor, i: usize) -> (r: Option<u64>)
    requires
        belong(*d, *u, *c),
        at_entry(*c),
        tame_at(*c),
    ensures
        r == part_address(
            cursor_table(*c),
            cursor_place(*c).0,
            cursor_place(*c).1,
            (cursor_place(*c).2 - 1) as nat,
            i as nat,
        ),
{
    d.dwarf.attr_address(&u.unit, c.at.current()?.attrs().get(i)?.value()).ok()?
}

/// `gimli::Attribute::value` of an attribute at the entry that a walk stands at, where
/// it is a number without a sign.
#[verifier::external_body]
fn current_part_number(c: &Cursor, i: usize) -> (r: Option<u64>)
    requires
        at_entry(*c),
    ensures
        r == part_number(
            cursor_table(*c),
            cursor_place(*c).0,
            cursor_place(*c).1,
            (cursor_place(*c).2 - 1) as nat,
            i as nat,
        ),
{
    match c.at.current()?.attrs().get(i)?.value() {
        AttributeValue::Udata(n) => Some(n),
        _ => None,
    }
}

/// An entry's first address, as the last of its first `n` attributes for one has it.
pub open spec fn last_low(t: Table, le: bool, ui: nat, k: nat, n: nat) -> Option<u64>
    decreases n,
{
    if n == 0 {
        None
    } else if (die_part(t, le, ui, k, (n - 1) as nat) matches Some(x) && x.0 == AT_LOW_PC) {
        part_address(t, le, ui, k, (n - 1) as nat)
    } else {
        last_low(t, le, ui, k, (n - 1) as nat)
    }
}

/// An entry's length in bytes, as the last of its first `n` attributes for one has it.
pub open spec fn last_size(t: Table, le: bool, ui: nat, k: nat, n: nat) -> Option<u64>
    decreases n,
{
    if n == 0 {
        None
    } else if (die_part(t, le, ui, k, (n - 1) as nat) matches Some(x) && x.0 == AT_HIGH_PC) && part_number(
        t,
        le,
        ui,
        k,
        (n - 1) as nat,
    ) is Some {
        part_number(t, le, ui, k, (n - 1) as nat)
    } else {
        last_size(t, le, ui, k, (n - 1) as nat)
    }
}

/// Whether an address and a length come to more than 64 bits hold.
pub open spec fn goes_beyond(lo: Option<u64>, size: Option<u64>) -> bool {
    match (lo, size) {
        (Some(lo), Some(n)) => lo + n > u64::MAX,
        _ => false,
    }
}

/// Whether an entry's first address and its length in bytes come to more than
/// 64 bits hold.
pub open spec fn overlong(t: Table, le: bool, ui: nat, k: nat) -> bool {
    exists|n: nat|
        n < usize::MAX && #[trigger] die_modest(t, le, ui, k, n) && die_part(t, le, ui, k, n) is None && goes_beyond(
            last_low(t, le, ui, k, n),
            last_size(t, le, ui, k, n),
        )
}

/// `gimli::Dwarf::die_ranges` and the iterator that it returns: the `j`th
/// address range of the entry that a walk stands at. `gimli` adds the entry's
/// first address and its length, which must not overflow, and takes the last of
/// attributes that come more than once. What the attributes and the list refer to
/// by number must have places.
#[verifier::external_body]
fn current_range(d: &Dwarf, u: &DwarfUnit, c: &Cursor, j: usize) -> (r: Result<
    Option<(u64, u64)>,
    Fault,
>)
    requires
        belong(*d, *u, *c),
        at_entry(*c),
        tame_at(*c),
        ranges_tame(
            cursor_table(*c),
            cursor_place(*c).0,
            cursor_place(*c).1,
            (cursor_place(*c).2 - 1) as nat,
        ),
        !overlong(
            cursor_table(*c),
            cursor_place(*c).0,
            cursor_place(*c).1,
            (cursor_place(*c).2 - 1) as nat,
        ),
    ensures
        r == die_range(
            cursor_table(*c),
            cursor_place(*c).0,
            cursor_place(*c).1,
            (cursor_place(*c).2 - 1) as nat,
            j as nat,
        ),
{
    let e = c.at.current().ok_or(Fault::Broken)?;
    let mut ranges = d.dwarf.die_ranges(&u.unit, e).map_err(|_| Fault::Broken)?;
    match ranges.nth(j) {
        None => Ok(None),
        Some(Ok(r)) => Ok(Some((r.begin, r.end))),
        Some(Err(_)) => Err(Fault::Broken),
    }
}

/// `gimli::Dwarf::attr_locations` and the iterator that it returns: the `j`th
/// entry of the location list of the entry that a walk stands at. What the
/// attribute and the list refer to by number must have places.
#[verifier::external_body]
fn current_span(d: &Dwarf, u: &DwarfUnit, c: &Cursor, j: usize) -> (r: Option<
    Result<Option<(u64, u64, Vec<u8>)>, Fault>,
>)
    requires
        belong(*d, *u, *c),
        at_entry(*c),
        tame_at(*c),
        spans_tame(
            cursor_table(*c),
            cursor_place(*c).0,
            cursor_place(*c).1,
            (cursor_place(*c).2 - 1) as nat,
        ),
    ensures
        match die_span(
            cursor_table(*c),
            cursor_place(*c).0,
            cursor_place(*c).1,
            (cursor_place(*c).2 - 1) as nat,
            j as nat,
        ) {
            None => r is None,
            Some(Err(_)) => r matches Some(Err(_)),
            Some(Ok(None)) => r matches Some(Ok(None)),
            Some(Ok(Some((b, e, x)))) => r matches Some(Ok(Some(got))) && got.0 == b && got.1 == e
                && got.2@ == x,
        },
{
    let v = c.at.current()?.attr_value(DwAt(AT_LOCATION))?;
    let mut spans = d.dwarf.attr_locations(&u.unit, v).ok()??;
    Some(match spans.nth(j) {
        None => Ok(None),
        Some(Ok(s)) => Ok(Some((s.range.begin, s.range.end, s.data.0.slice().to_vec()))),
        Some(Err(_)) => Err(Fault::Broken),
    })
}

// ---------------------------------------------------------------------------
// Entries.
// ---------------------------------------------------------------------------

/// The codes of the attributes that are of use.
pub open spec fn codes() -> Seq<u16> {
    seq![
        AT_BYTE_SIZE,
        AT_LOW_PC,
        AT_DISCR,
        AT_ABSTRACT_ORIGIN,
        AT_DATA_MEMBER_LOCATION,
        AT_DECLARATION,
        AT_ENCODING,
        AT_FRAME_BASE,
        AT_SPECIFICATION,
        AT_TYPE,
        AT_ALIGNMENT,
    ]
}

fn attr_codes() -> (r: Vec<u16>)
    ensures
        r@ == codes(),
{
    let r: Vec<u16> = vec![
        AT_BYTE_SIZE,
        AT_LOW_PC,
        AT_DISCR,
        AT_ABSTRACT_ORIGIN,
        AT_DATA_MEMBER_LOCATION,
        AT_DECLARATION,
        AT_ENCODING,
        AT_FRAME_BASE,
        AT_SPECIFICATION,
        AT_TYPE,
        AT_ALIGNMENT,
    ];
    assert(r@ =~= codes());
    r
}

/// Whether an attribute is the one that was read.
pub open spec fn attr_says(a: Option<Attr>, want: Option<AttrV>) -> bool {
    match want {
        Some(v) => a matches Some(got) && got@ == v,
        None => a is None,
    }
}

/// Whether a name is the one that was read.
pub open spec fn name_says(n: Name, want: Option<Result<Seq<char>, Fault>>) -> bool {
    match want {
        None => n is Absent,
        Some(Err(_)) => n is Unreadable,
        Some(Ok(s)) => n matches Name::Text(got) && got@ == s,
    }
}

/// Whether the first ranges of an entry are these.
pub open spec fn ranges_start(rs: Seq<(u64, u64)>, t: Table, le: bool, ui: nat, k: nat) -> bool {
    forall|j: int|
        0 <= j < rs.len() ==> die_range(t, le, ui, k, j as nat) == Ok::<Option<(u64, u64)>, Fault>(
            Some(#[trigger] rs[j]),
        )
}

/// Whether ranges are those of an entry. Only a subprogram's are read; of one
/// whose length leads beyond the last address, or that refers to what has no place,
/// none are.
pub open spec fn ranges_say(r: Ranges, tag: u16, t: Table, le: bool, ui: nat, k: nat) -> bool {
    if tag != TAG_SUBPROGRAM {
        r matches Ranges::All(rs) && rs@.len() == 0
    } else if !die_tame(t, le, ui, k) || !ranges_tame(t, le, ui, k) || overlong(t, le, ui, k) {
        r matches Ranges::Broken(rs) && rs@.len() == 0
    } else {
        match r {
            Ranges::All(rs) => ranges_start(rs@, t, le, ui, k) && die_range(
                t,
                le,
                ui,
                k,
                rs@.len(),
            ) == Ok::<Option<(u64, u64)>, Fault>(None),
            Ranges::Broken(rs) => ranges_start(rs@, t, le, ui, k) && (rs@.len() == usize::MAX
                || die_range(t, le, ui, k, rs@.len()) is Err),
        }
    }
}

/// Whether the first entries of a location list are these.
pub open spec fn spans_start(ss: Seq<Span>, t: Table, le: bool, ui: nat, k: nat) -> bool {
    forall|j: int|
        0 <= j < ss.len() ==> die_span(t, le, ui, k, j as nat) == Some(
            Ok::<Option<(u64, u64, Seq<u8>)>, Fault>(
                Some(((#[trigger] ss[j]).begin, ss[j].end, ss[j].expr@)),
            ),
        )
}

/// Whether a location is that of an entry. Of a list none is read where it refers to
/// what has no place.
pub open spec fn location_says(l: Location, t: Table, le: bool, ui: nat, k: nat) -> bool {
    match die_attr(t, le, ui, k, AT_LOCATION) {
        None => l is Absent,
        Some(AttrV::Exprloc(b)) => l matches Location::Expr(got) && got@ == b,
        Some(_) => if !die_tame(t, le, ui, k) || !spans_tame(t, le, ui, k) {
            l matches Location::BrokenList(ss) && ss@.len() == 0
        } else {
            location_listed(l, t, le, ui, k)
        },
    }
}

/// Whether a location is the list that an entry's attribute stands for.
pub open spec fn location_listed(l: Location, t: Table, le: bool, ui: nat, k: nat) -> bool {
    match l {
        Location::Absent => die_span(t, le, ui, k, 0) is None,
        Location::Expr(_) => false,
        Location::List(ss) => spans_start(ss@, t, le, ui, k) && (die_span(
            t,
            le,
            ui,
            k,
            ss@.len(),
        ) matches Some(Ok(None)) || (ss@.len() > 0 && die_span(t, le, ui, k, ss@.len()) is None)),
        Location::BrokenList(ss) => spans_start(ss@, t, le, ui, k) && (ss@.len() == usize::MAX
            || die_span(t, le, ui, k, ss@.len()) matches Some(Err(_))),
    }
}

/// Whether an entry is the one that was read at a step of the walk.
pub open spec fn entry_says(e: Entry, t: Table, le: bool, ui: nat, k: nat) -> bool {
    &&& dfs_step(t, le, ui, k) == Ok::<bool, Fault>(true)
    &&& (e.offset, e.depth, e.tag) == die_head(t, le, ui, k)
    &&& if die_tame(t, le, ui, k) {
        name_says(e.name, die_text(t, le, ui, k, AT_NAME))
    } else {
        e.name is Unreadable
    }
    &&& forall|i: int|
        0 <= i < codes().len() ==> attr_says(
            crate::die::attr_of(e, #[trigger] codes()[i]),
            die_attr(t, le, ui, k, codes()[i]),
        )
    &&& e.discr_value == die_udata(t, le, ui, k, AT_DISCR_VALUE)
    &&& ranges_say(e.ranges, e.tag, t, le, ui, k)
    &&& location_says(e.location, t, le, ui, k)
}

/// Whether entries are those of the first steps of the walk over a unit.
pub open spec fn entries_say(es: Seq<Entry>, t: Table, le: bool, ui: nat) -> bool {
    forall|k: int| 0 <= k < es.len() ==> entry_says(#[trigger] es[k], t, le, ui, k as nat)
}

/// Whether a unit holds what the walk over it came to.
pub open spec fn unit_says(unit: Unit, t: Table, le: bool, ui: nat) -> bool {
    &&& root_tame(t, le, ui)
    &&& unit_read(t, le, ui) == Ok::<bool, Fault>(true)
    &&& entries_say(unit.dies(), t, le, ui)
    &&& unit.whole() ==> dfs_step(t, le, ui, unit.dies().len()) == Ok::<bool, Fault>(false)
    &&& !unit.whole() ==> unit.dies().len() == usize::MAX || dfs_step(
        t,
        le,
        ui,
        unit.dies().len(),
    ) is Err
}

/// Whether units are those of the sections.
pub open spec fn units_say(units: Seq<Unit>, t: Table, le: bool) -> bool {
    &&& forall|ui: int|
        0 <= ui < units.len() ==> unit_says(#[trigger] units[ui], t, le, ui as nat)
    &&& unit_read(t, le, units.len()) == Ok::<bool, Fault>(false)
}

/// Whether an entry holds, under a code, what was read under it.
pub open spec fn holds(e: Entry, t: Table, le: bool, ui: nat, k: nat, at: u16) -> bool {
    match die_attr(t, le, ui, k, at) {
        Some(v) => crate::die::attr_of(e, at) matches Some(got) && got@ == v,
        None => crate::die::attr_of(e, at) is None,
    }
}

/// An entry that was loaded holds every attribute that is ever asked of it: its size,
/// where its code begins, its discriminant's place, what it is an instance of, where in
/// its type a member lies, whether it only declares, how it is encoded, where its frame
/// begins, what it completes, its type, and its alignment. Each is the one that DWARF
/// has under that number.
pub proof fn law_entry_holds_its_attributes(e: Entry, t: Table, le: bool, ui: nat, k: nat)
    requires
        entry_says(e, t, le, ui, k),
    ensures
        holds(e, t, le, ui, k, AT_BYTE_SIZE) && AT_BYTE_SIZE == 0x0b,
        holds(e, t, le, ui, k, AT_LOW_PC) && AT_LOW_PC == 0x11,
        holds(e, t, le, ui, k, AT_DISCR) && AT_DISCR == 0x15,
        holds(e, t, le, ui, k, AT_ABSTRACT_ORIGIN) && AT_ABSTRACT_ORIGIN == 0x31,
        holds(e, t, le, ui, k, AT_DATA_MEMBER_LOCATION) && AT_DATA_MEMBER_LOCATION == 0x38,
        holds(e, t, le, ui, k, AT_DECLARATION) && AT_DECLARATION == 0x3c,
        holds(e, t, le, ui, k, AT_ENCODING) && AT_ENCODING == 0x3e,
        holds(e, t, le, ui, k, AT_FRAME_BASE) && AT_FRAME_BASE == 0x40,
        holds(e, t, le, ui, k, AT_SPECIFICATION) && AT_SPECIFICATION == 0x47,
        holds(e, t, le, ui, k, AT_TYPE) && AT_TYPE == 0x49,
        holds(e, t, le, ui, k, AT_ALIGNMENT) && AT_ALIGNMENT == 0x88,
        e.discr_value == die_udata(t, le, ui, k, AT_DISCR_VALUE) && AT_DISCR_VALUE == 0x16,
        die_tame(t, le, ui, k) ==> name_says(e.name, die_text(t, le, ui, k, AT_NAME)) && AT_NAME == 0x03,
{
    assert(codes()[0] == AT_BYTE_SIZE);
    assert(codes()[1] == AT_LOW_PC);
    assert(codes()[2] == AT_DISCR);
    assert(codes()[3] == AT_ABSTRACT_ORIGIN);
    assert(codes()[4] == AT_DATA_MEMBER_LOCATION);
    assert(codes()[5] == AT_DECLARATION);
    assert(codes()[6] == AT_ENCODING);
    assert(codes()[7] == AT_FRAME_BASE);
    assert(codes()[8] == AT_SPECIFICATION);
    assert(codes()[9] == AT_TYPE);
    assert(codes()[10] == AT_ALIGNMENT);
}

/// Every entry of every unit that was loaded holds the attributes that are asked of it.
pub proof fn law_loaded_entries_hold_their_attributes(s: Store, t: Table, le: bool, slide: u64, ui: int, k: int)
    requires
        is_loaded(Ok(s), t, le, slide),
        0 <= ui < s.all().len(),
        0 <= k < s.all()[ui].dies().len(),
    ensures
        ({
            let e = s.all()[ui].dies()[k];
            &&& (e.offset, e.depth, e.tag) == die_head(t, le, ui as nat, k as nat)
            &&& holds(e, t, le, ui as nat, k as nat, AT_BYTE_SIZE)
            &&& holds(e, t, le, ui as nat, k as nat, AT_LOW_PC)
            &&& holds(e, t, le, ui as nat, k as nat, AT_DISCR)
            &&& holds(e, t, le, ui as nat, k as nat, AT_ABSTRACT_ORIGIN)
            &&& holds(e, t, le, ui as nat, k as nat, AT_DATA_MEMBER_LOCATION)
            &&& holds(e, t, le, ui as nat, k as nat, AT_DECLARATION)
            &&& holds(e, t, le, ui as nat, k as nat, AT_ENCODING)
            &&& holds(e, t, le, ui as nat, k as nat, AT_FRAME_BASE)
            &&& holds(e, t, le, ui as nat, k as nat, AT_SPECIFICATION)
            &&& holds(e, t, le, ui as nat, k as nat, AT_TYPE)
            &&& holds(e, t, le, ui as nat, k as nat, AT_ALIGNMENT)
            &&& e.discr_value == die_udata(t, le, ui as nat, k as nat, AT_DISCR_VALUE)
        }),
{
    assert(unit_says(s.all()[ui], t, le, ui as nat));
    law_entry_holds_its_attributes(s.all()[ui].dies()[k], t, le, ui as nat, k as nat);
}

/// The place of the entry that a walk stands at.
pub open spec fn stands_at(d: Dwarf, u: DwarfUnit, c: Cursor, ui: nat, k: nat) -> bool {
    &&& belong(d, u, c)
    &&& cursor_place(c) == (dwarf_little(d), ui, k + 1)
    &&& at_entry(c)
}

proof fn lemma_attr_from_skip(attrs: Seq<(u16, Attr)>, a: (u16, Attr), at: u16, k: nat)
    requires
        k <= attrs.len(),
    ensures
        crate::die::attr_from(attrs.push(a), at, k) == (match crate::die::attr_from(attrs, at, k) {
            Some(x) => Some(x),
            None => if a.0 == at {
                Some(a.1)
            } else {
                None
            },
        }),
    decreases attrs.len() - k,
{
    reveal_with_fuel(crate::die::attr_from, 2);
    if k < attrs.len() {
        if attrs[k as int].0 != at {
            lemma_attr_from_skip(attrs, a, at, k + 1);
        }
    }
}

proof fn lemma_attr_from_none(attrs: Seq<(u16, Attr)>, at: u16, k: nat)
    requires
        forall|j: int| 0 <= j < attrs.len() ==> (#[trigger] attrs[j]).0 != at,
    ensures
        crate::die::attr_from(attrs, at, k) is None,
    decreases attrs.len() - k,
{
    if k < attrs.len() {
        lemma_attr_from_none(attrs, at, k + 1);
    }
}

fn read_attrs(
    d: &Dwarf,
    u: &DwarfUnit,
    c: &Cursor,
    Ghost(ui): Ghost<nat>,
    Ghost(k): Ghost<nat>,
) -> (r: Vec<(u16, Attr)>)
    requires
        stands_at(*d, *u, *c, ui, k),
    ensures
        forall|i: int|
            0 <= i < codes().len() ==> attr_says(
                crate::die::attr_from(r@, #[trigger] codes()[i], 0),
                die_attr(dwarf_table(*d), dwarf_little(*d), ui, k, codes()[i]),
            ),
{
    let ghost t = dwarf_table(*d);
    let ghost le = dwarf_little(*d);
    let which: Vec<u16> = attr_codes();
    let mut attrs: Vec<(u16, Attr)> = Vec::new();
    let mut n: usize = 0;
    assert forall|i: int, j: int| 0 <= i < j < codes().len() implies #[trigger] codes()[i]
        != #[trigger] codes()[j] by {}
    while n < which.len()
        invariant
            n <= which@.len(),
            which@ == codes(),
            stands_at(*d, *u, *c, ui, k),
            t == dwarf_table(*d),
            le == dwarf_little(*d),
            forall|i: int, j: int|
                0 <= i < j < codes().len() ==> #[trigger] codes()[i] != #[trigger] codes()[j],
            forall|j: int|
                0 <= j < attrs@.len() ==> exists|i: int|
                    0 <= i < n && (#[trigger] attrs@[j]).0 == #[trigger] codes()[i],
            forall|i: int|
                0 <= i < n ==> attr_says(
                    crate::die::attr_from(attrs@, #[trigger] codes()[i], 0),
                    die_attr(t, le, ui, k, codes()[i]),
                ),
        decreases which@.len() - n,
    {
        let at: u16 = which[n];
        proof {
            assert(codes()[n as int] == at);
            assert forall|j: int| 0 <= j < attrs@.len() implies (#[trigger] attrs@[j]).0 != at by {
                let i = choose|i: int| 0 <= i < n && attrs@[j].0 == #[trigger] codes()[i];
                assert(codes()[i] != codes()[n as int]);
            }
            lemma_attr_from_none(attrs@, at, 0);
        }
        let ghost before = attrs@;
        if let Some(a) = current_attr(c, at) {
            proof {
                assert forall|i: int| 0 <= i < codes().len() implies crate::die::attr_from(
                    before.push((at, a)),
                    #[trigger] codes()[i],
                    0,
                ) == (match crate::die::attr_from(before, codes()[i], 0) {
                    Some(x) => Some(x),
                    None => if at == codes()[i] {
                        Some(a)
                    } else {
                        None
                    },
                }) by {
                    lemma_attr_from_skip(before, (at, a), codes()[i], 0);
                }
            }
            attrs.push((at, a));
        }
        proof {
            assert forall|j: int| 0 <= j < attrs@.len() implies exists|i: int|
                0 <= i < n + 1 && (#[trigger] attrs@[j]).0 == #[trigger] codes()[i] by {
                if j < before.len() {
                    assert(attrs@[j] == before[j]);
                    let i = choose|i: int| 0 <= i < n && before[j].0 == #[trigger] codes()[i];
                    assert(attrs@[j].0 == codes()[i]);
                } else {
                    assert(attrs@[j].0 == codes()[n as int]);
                }
            }
            assert forall|i: int| 0 <= i < n + 1 implies attr_says(
                crate::die::attr_from(attrs@, #[trigger] codes()[i], 0),
                die_attr(t, le, ui, k, codes()[i]),
            ) by {
                if i < n {
                    assert(codes()[i] != codes()[n as int]);
                }
            }
        }
        n = n + 1;
    }
    attrs
}

fn two_at(s: &[u8], le: bool, at: usize, i: usize) -> (r: u64)
    requires
        at + 8 <= s@.len(),
        i <= 6,
    ensures
        r == two_of(s@, le, at as int, i as int),
        r <= 0xffff,
{
    assert(s@.len() == s.len());
    if le {
        s[at + i] as u64 + 0x100 * s[at + i + 1] as u64
    } else {
        s[at + (7 - i)] as u64 + 0x100 * s[at + (6 - i)] as u64
    }
}

fn eight_at(s: &[u8], le: bool, at: usize) -> (r: u64)
    requires
        at + 8 <= s@.len(),
    ensures
        r == eight(s@, le, at as int),
{
    two_at(s, le, at, 0) + 0x1_0000 * two_at(s, le, at, 2) + 0x1_0000_0000 * two_at(s, le, at, 4)
        + 0x1_0000_0000_0000 * two_at(s, le, at, 6)
}

fn does_list_fit(s: &[u8], le: bool, base: usize, i: u64) -> (r: bool)
    requires
        i <= MAX_INDEX,
    ensures
        r == list_fits(s@, le, base as int, i as int),
{
    let at: u128 = base as u128 + 8 * (i as u128);
    if at + 8 > s.len() as u128 {
        return true;
    }
    base as u128 + eight_at(s, le, at as usize) as u128 <= usize::MAX as u128
}

/// The parts of a unit's tables that numbers in its entries lead to.
struct Lists {
    wide: bool,
    little: bool,
    ranges: (&'static [u8], usize),
    places: (&'static [u8], usize),
}

/// Whether those are a unit's.
spec fn lists_say(l: Lists, t: Table, le: bool, ui: nat) -> bool {
    &&& l.wide == unit_wide(t, le, ui)
    &&& l.little == le
    &&& l.ranges.0@ == section_in(t, ".debug_rnglists"@)
    &&& l.ranges.1 == unit_lists(t, le, ui).0
    &&& l.places.0@ == section_in(t, ".debug_loclists"@)
    &&& l.places.1 == unit_lists(t, le, ui).1
}

fn lists_of(t: &Vec<(String, &'static [u8])>, u: &DwarfUnit, little: bool, Ghost(ui): Ghost<nat>) -> (r: Lists)
    requires
        unit_table(*u) == table_view(t@),
        unit_place(*u) == (little, ui),
    ensures
        lists_say(r, table_view(t@), little, ui),
{
    proof {
        reveal_strlit(".debug_rnglists");
        reveal_strlit(".debug_loclists");
    }
    let bases: (usize, usize) = list_bases(u);
    Lists {
        wide: is_wide(u),
        little,
        ranges: (section_data(t, ".debug_rnglists"), bases.0),
        places: (section_data(t, ".debug_loclists"), bases.1),
    }
}

/// Whether all attributes of an entry can be followed.
fn is_tame(
    l: &Lists,
    u: &DwarfUnit,
    c: &Cursor,
    Ghost(d): Ghost<Dwarf>,
    Ghost(ui): Ghost<nat>,
    Ghost(k): Ghost<nat>,
) -> (r: bool)
    requires
        stands_at(d, *u, *c, ui, k),
        lists_say(*l, dwarf_table(d), dwarf_little(d), ui),
    ensures
        r == die_tame(dwarf_table(d), dwarf_little(d), ui, k),
{
    let ghost t = dwarf_table(d);
    let ghost le = dwarf_little(d);
    let mut n: usize = 0;
    while n < usize::MAX
        invariant
            stands_at(d, *u, *c, ui, k),
            lists_say(*l, t, le, ui),
            t == dwarf_table(d),
            le == dwarf_little(d),
            die_modest(t, le, ui, k, n as nat),
        decreases usize::MAX - n,
    {
        match current_part(c, n) {
            None => {
                return true;
            },
            Some((at, x)) => {
                assert(die_part(t, le, ui, k, n as nat) == Some((at, x)));
                let fine: bool = match x {
                    Index::Nothing => true,
                    Index::Entry(i) => i <= MAX_INDEX,
                    Index::Ranges(i) => i <= MAX_INDEX && (!l.wide || does_list_fit(
                        l.ranges.0,
                        l.little,
                        l.ranges.1,
                        i,
                    )),
                    Index::Places(i) => i <= MAX_INDEX && (!l.wide || does_list_fit(
                        l.places.0,
                        l.little,
                        l.places.1,
                        i,
                    )),
                };
                if !fine {
                    return false;
                }
            },
        }
        n = n + 1;
    }
    proof {
        if die_tame(t, le, ui, k) {
            let m = choose|m: nat|
                m < usize::MAX && #[trigger] die_modest(t, le, ui, k, m) && die_part(t, le, ui, k, m) is None;
            assert(m < n);
        }
    }
    false
}

/// An entry has one number of attributes.
proof fn lemma_one_count(t: Table, le: bool, ui: nat, k: nat, a: nat, b: nat)
    requires
        die_modest(t, le, ui, k, a),
        die_part(t, le, ui, k, a) is None,
        die_modest(t, le, ui, k, b),
        die_part(t, le, ui, k, b) is None,
    ensures
        a == b,
{
    if a < b {
        assert(die_part(t, le, ui, k, a) is Some);
    }
    if b < a {
        assert(die_part(t, le, ui, k, b) is Some);
    }
}

/// Whether the range list of an attribute refers only to what has a place.
fn is_list_tame(
    d: &Dwarf,
    u: &DwarfUnit,
    c: &Cursor,
    i: usize,
    Ghost(ui): Ghost<nat>,
    Ghost(k): Ghost<nat>,
) -> (r: bool)
    requires
        stands_at(*d, *u, *c, ui, k),
        die_tame(dwarf_table(*d), dwarf_little(*d), ui, k),
    ensures
        r == list_tame(dwarf_table(*d), dwarf_little(*d), ui, k, i as nat),
{
    let ghost t = dwarf_table(*d);
    let ghost le = dwarf_little(*d);
    let mut j: usize = 0;
    while j < usize::MAX
        invariant
            stands_at(*d, *u, *c, ui, k),
            t == dwarf_table(*d),
            le == dwarf_little(*d),
            die_tame(t, le, ui, k),
            list_modest(t, le, ui, k, i as nat, j as nat),
        decreases usize::MAX - j,
    {
        match current_range_part(d, u, c, i, j) {
            None => {
                return true;
            },
            Some(x) => {
                assert(range_part(t, le, ui, k, i as nat, j as nat) == Some(x));
                if x.0 > MAX_INDEX || x.1 > MAX_INDEX {
                    return false;
                }
            },
        }
        j = j + 1;
    }
    false
}

/// Whether an entry's range lists refer only to what has a place, and whether its first
/// address and its length do not go beyond 64 bits.
fn ranges_are_fine(
    d: &Dwarf,
    u: &DwarfUnit,
    c: &Cursor,
    Ghost(ui): Ghost<nat>,
    Ghost(k): Ghost<nat>,
) -> (r: bool)
    requires
        stands_at(*d, *u, *c, ui, k),
        die_tame(dwarf_table(*d), dwarf_little(*d), ui, k),
    ensures
        r == (ranges_tame(dwarf_table(*d), dwarf_little(*d), ui, k) && !overlong(
            dwarf_table(*d),
            dwarf_little(*d),
            ui,
            k,
        )),
{
    let ghost t = dwarf_table(*d);
    let ghost le = dwarf_little(*d);
    let ghost end = choose|m: nat|
        m < usize::MAX && #[trigger] die_modest(t, le, ui, k, m) && die_part(t, le, ui, k, m) is None;
    let mut low: Option<u64> = None;
    let mut size: Option<u64> = None;
    let mut i: usize = 0;
    while i < usize::MAX
        invariant
            stands_at(*d, *u, *c, ui, k),
            t == dwarf_table(*d),
            le == dwarf_little(*d),
            die_tame(t, le, ui, k),
            end < usize::MAX,
            die_modest(t, le, ui, k, end),
            die_part(t, le, ui, k, end) is None,
            i <= end,
            ranges_tame_to(t, le, ui, k, i as nat),
            low == last_low(t, le, ui, k, i as nat),
            size == last_size(t, le, ui, k, i as nat),
        decreases usize::MAX - i,
    {
        match current_part(c, i) {
            None => {
                proof {
                    lemma_one_count_at(t, le, ui, k, end, i as nat);
                }
                return match (low, size) {
                    (Some(lo), Some(n)) => lo.checked_add(n).is_some(),
                    _ => true,
                };
            },
            Some((at, _)) => {
                assert(die_part(t, le, ui, k, i as nat) is Some);
                if at == AT_LOW_PC {
                    low = current_part_address(d, u, c, i);
                } else if at == AT_HIGH_PC {
                    match current_part_number(c, i) {
                        Some(n) => {
                            size = Some(n);
                        },
                        None => {},
                    }
                } else if at == AT_RANGES {
                    if !is_list_tame(d, u, c, i, Ghost(ui), Ghost(k)) {
                        proof {
                            assert(list_wild(t, le, ui, k, i as nat));
                            if ranges_tame(t, le, ui, k) {
                                let m = choose|m: nat|
                                    m < usize::MAX && #[trigger] die_modest(t, le, ui, k, m) && die_part(
                                        t,
                                        le,
                                        ui,
                                        k,
                                        m,
                                    ) is None && ranges_tame_to(t, le, ui, k, m);
                                lemma_one_count(t, le, ui, k, m, end);
                            }
                        }
                        return false;
                    }
                }
            },
        }
        i = i + 1;
    }
    false
}

/// What ends the walk over an entry's attributes says of all of them.
proof fn lemma_one_count_at(t: Table, le: bool, ui: nat, k: nat, end: nat, i: nat)
    requires
        end < usize::MAX,
        die_modest(t, le, ui, k, end),
        die_part(t, le, ui, k, end) is None,
        i <= end,
        die_part(t, le, ui, k, i) is None,
        ranges_tame_to(t, le, ui, k, i),
    ensures
        i == end,
        ranges_tame(t, le, ui, k),
        overlong(t, le, ui, k) == goes_beyond(last_low(t, le, ui, k, i), last_size(t, le, ui, k, i)),
{
    if i < end {
        assert(die_part(t, le, ui, k, i) is Some);
    }
    if overlong(t, le, ui, k) {
        let m = choose|m: nat|
            m < usize::MAX && #[trigger] die_modest(t, le, ui, k, m) && die_part(t, le, ui, k, m) is None
                && goes_beyond(last_low(t, le, ui, k, m), last_size(t, le, ui, k, m));
        lemma_one_count(t, le, ui, k, m, end);
    }
}

/// Whether an entry's location list refers only to what has a place.
fn spans_are_tame(
    d: &Dwarf,
    u: &DwarfUnit,
    c: &Cursor,
    Ghost(ui): Ghost<nat>,
    Ghost(k): Ghost<nat>,
) -> (r: bool)
    requires
        stands_at(*d, *u, *c, ui, k),
        die_tame(dwarf_table(*d), dwarf_little(*d), ui, k),
    ensures
        r == spans_tame(dwarf_table(*d), dwarf_little(*d), ui, k),
{
    let ghost t = dwarf_table(*d);
    let ghost le = dwarf_little(*d);
    let mut j: usize = 0;
    while j < usize::MAX
        invariant
            stands_at(*d, *u, *c, ui, k),
            t == dwarf_table(*d),
            le == dwarf_little(*d),
            die_tame(t, le, ui, k),
            spans_modest(t, le, ui, k, j as nat),
        decreases usize::MAX - j,
    {
        match current_span_part(d, u, c, j) {
            None => {
                return true;
            },
            Some(x) => {
                assert(span_part(t, le, ui, k, j as nat) == Some(x));
                if x.0 > MAX_INDEX || x.1 > MAX_INDEX {
                    return false;
                }
            },
        }
        j = j + 1;
    }
    false
}

/// Whether a unit's first entry refers only to what has a place in its tables.
fn root_is_tame(d: &Dwarf, ui: usize) -> (r: bool)
    ensures
        r == root_tame(dwarf_table(*d), dwarf_little(*d), ui as nat),
{
    let ghost t = dwarf_table(*d);
    let ghost le = dwarf_little(*d);
    let mut i: usize = 0;
    while i < usize::MAX
        invariant
            t == dwarf_table(*d),
            le == dwarf_little(*d),
            root_modest(t, le, ui as nat, i as nat),
        decreases usize::MAX - i,
    {
        match root_attr(d, ui, i) {
            None => {
                return true;
            },
            Some((_, x)) => {
                assert(root_part(t, le, ui as nat, i as nat).unwrap().1 == x);
                let fine: bool = match x {
                    Index::Nothing => true,
                    Index::Entry(n) => n <= MAX_INDEX,
                    Index::Ranges(n) => n <= MAX_INDEX,
                    Index::Places(n) => n <= MAX_INDEX,
                };
                if !fine {
                    return false;
                }
            },
        }
        i = i + 1;
    }
    false
}

fn read_ranges(
    d: &Dwarf,
    u: &DwarfUnit,
    c: &Cursor,
    tag: u16,
    tame: bool,
    Ghost(ui): Ghost<nat>,
    Ghost(k): Ghost<nat>,
) -> (r: Ranges)
    requires
        stands_at(*d, *u, *c, ui, k),
        tame == die_tame(dwarf_table(*d), dwarf_little(*d), ui, k),
    ensures
        ranges_say(r, tag, dwarf_table(*d), dwarf_little(*d), ui, k),
{
    let mut rs: Vec<(u64, u64)> = Vec::new();
    if tag != TAG_SUBPROGRAM {
        return Ranges::All(rs);
    }
    if !tame || !ranges_are_fine(d, u, c, Ghost(ui), Ghost(k)) {
        return Ranges::Broken(rs);
    }
    let mut j: usize = 0;
    while j < usize::MAX
        invariant
            j == rs@.len(),
            stands_at(*d, *u, *c, ui, k),
            tag == TAG_SUBPROGRAM,
            die_tame(dwarf_table(*d), dwarf_little(*d), ui, k),
            ranges_tame(dwarf_table(*d), dwarf_little(*d), ui, k),
            !overlong(dwarf_table(*d), dwarf_little(*d), ui, k),
            ranges_start(rs@, dwarf_table(*d), dwarf_little(*d), ui, k),
        decreases usize::MAX - j,
    {
        match current_range(d, u, c, j) {
            Err(_) => {
                return Ranges::Broken(rs);
            },
            Ok(None) => {
                return Ranges::All(rs);
            },
            Ok(Some(r)) => {
                rs.push(r);
            },
        }
        j = j + 1;
    }
    Ranges::Broken(rs)
}

fn read_location(
    d: &Dwarf,
    u: &DwarfUnit,
    c: &Cursor,
    tame: bool,
    Ghost(ui): Ghost<nat>,
    Ghost(k): Ghost<nat>,
) -> (r: Location)
    requires
        stands_at(*d, *u, *c, ui, k),
        tame == die_tame(dwarf_table(*d), dwarf_little(*d), ui, k),
    ensures
        location_says(r, dwarf_table(*d), dwarf_little(*d), ui, k),
{
    match current_attr(c, AT_LOCATION) {
        None => {
            return Location::Absent;
        },
        Some(Attr::Exprloc(b)) => {
            return Location::Expr(b);
        },
        Some(_) => {},
    }
    let mut ss: Vec<Span> = Vec::new();
    if !tame || !spans_are_tame(d, u, c, Ghost(ui), Ghost(k)) {
        return Location::BrokenList(ss);
    }
    let mut j: usize = 0;
    while j < usize::MAX
        invariant
            j == ss@.len(),
            stands_at(*d, *u, *c, ui, k),
            die_tame(dwarf_table(*d), dwarf_little(*d), ui, k),
            spans_tame(dwarf_table(*d), dwarf_little(*d), ui, k),
            die_attr(dwarf_table(*d), dwarf_little(*d), ui, k, AT_LOCATION) matches Some(a) && a
                !is Exprloc,
            spans_start(ss@, dwarf_table(*d), dwarf_little(*d), ui, k),
        decreases usize::MAX - j,
    {
        match current_span(d, u, c, j) {
            None => {
                if j == 0 {
                    return Location::Absent;
                }
                return Location::List(ss);
            },
            Some(Err(_)) => {
                return Location::BrokenList(ss);
            },
            Some(Ok(None)) => {
                return Location::List(ss);
            },
            Some(Ok(Some((begin, end, expr)))) => {
                ss.push(Span { begin, end, expr });
            },
        }
        j = j + 1;
    }
    Location::BrokenList(ss)
}

fn read_entry(
    l: &Lists,
    d: &Dwarf,
    u: &DwarfUnit,
    c: &Cursor,
    Ghost(ui): Ghost<nat>,
    Ghost(k): Ghost<nat>,
) -> (r: Entry)
    requires
        stands_at(*d, *u, *c, ui, k),
        lists_say(*l, dwarf_table(*d), dwarf_little(*d), ui),
    ensures
        entry_says(r, dwarf_table(*d), dwarf_little(*d), ui, k),
{
    let (offset, depth, tag) = current_head(c);
    let tame: bool = is_tame(l, u, c, Ghost(*d), Ghost(ui), Ghost(k));
    let name: Name = if tame {
        match current_text(d, u, c, AT_NAME) {
            None => Name::Absent,
            Some(Err(_)) => Name::Unreadable,
            Some(Ok(s)) => Name::Text(s),
        }
    } else {
        Name::Unreadable
    };
    let attrs: Vec<(u16, Attr)> = read_attrs(d, u, c, Ghost(ui), Ghost(k));
    let discr_value: Option<u64> = current_udata(c, AT_DISCR_VALUE);
    let ranges: Ranges = read_ranges(d, u, c, tag, tame, Ghost(ui), Ghost(k));
    let location: Location = read_location(d, u, c, tame, Ghost(ui), Ghost(k));
    Entry { offset, depth, tag, name, attrs, discr_value, ranges, location }
}

/// Why debugging information cannot be loaded.
#[derive(Clone, Copy, PartialEq, Eq, Structural, Debug)]
pub enum LoadError {
    /// The bytes are no object file.
    NotAnObject,
    /// A unit cannot be read.
    Unit,
    /// A unit's entries are not in the order of their offsets.
    Order,
}

/// Reads a unit: its entries, in the order of a depth-first walk.
fn read_entries(
    t: &Vec<(String, &'static [u8])>,
    little: bool,
    d: &Dwarf,
    u: &DwarfUnit,
    Ghost(ui): Ghost<nat>,
) -> (r: (Vec<Entry>, bool))
    requires
        dwarf_table(*d) == table_view(t@),
        dwarf_little(*d) == little,
        unit_table(*u) == dwarf_table(*d),
        unit_place(*u) == (dwarf_little(*d), ui),
    ensures
        entries_say(r.0@, dwarf_table(*d), dwarf_little(*d), ui),
        r.1 ==> dfs_step(dwarf_table(*d), dwarf_little(*d), ui, r.0@.len()) == Ok::<bool, Fault>(
            false,
        ),
        !r.1 ==> r.0@.len() == usize::MAX || dfs_step(
            dwarf_table(*d),
            dwarf_little(*d),
            ui,
            r.0@.len(),
        ) is Err,
{
    let l: Lists = lists_of(t, u, little, Ghost(ui));
    let mut c: Cursor = entries(u);
    let mut es: Vec<Entry> = Vec::new();
    let mut k: usize = 0;
    while k < usize::MAX
        invariant
            k == es@.len(),
            lists_say(l, dwarf_table(*d), dwarf_little(*d), ui),
            unit_table(*u) == dwarf_table(*d),
            unit_place(*u) == (dwarf_little(*d), ui),
            cursor_table(c) == dwarf_table(*d),
            cursor_place(c) == (dwarf_little(*d), ui, k as nat),
            entries_say(es@, dwarf_table(*d), dwarf_little(*d), ui),
        decreases usize::MAX - k,
    {
        match next_dfs(&mut c) {
            Err(_) => {
                return (es, false);
            },
            Ok(false) => {
                return (es, true);
            },
            Ok(true) => {
                let e: Entry = read_entry(&l, d, u, &c, Ghost(ui), Ghost(k as nat));
                es.push(e);
            },
        }
        k = k + 1;
    }
    (es, false)
}

/// Whether some unit, all before it being readable, is not, or its first entry
/// refers to what has no place.
pub open spec fn unreadable(t: Table, le: bool) -> bool {
    exists|ui: nat|
        (forall|i: nat| i < ui ==> #[trigger] unit_read(t, le, i) == Ok::<bool, Fault>(true)) && (ui
            == usize::MAX || #[trigger] unit_read(t, le, ui) is Err || !root_tame(t, le, ui))
}

/// Whether some unit's walk comes to entries that are not in the order of their
/// offsets.
pub open spec fn disordered(t: Table, le: bool) -> bool {
    exists|ui: nat, es: Seq<Entry>|
        unit_read(t, le, ui) == Ok::<bool, Fault>(true) && #[trigger] entries_say(es, t, le, ui)
            && !crate::die::ascending(es)
}

/// Reads all units of the sections.
pub fn read_units(t: &Vec<(String, &'static [u8])>, little: bool) -> (r: Result<
    Vec<Unit>,
    LoadError,
>)
    ensures
        match r {
            Ok(units) => units_say(units@, table_view(t@), little),
            Err(LoadError::Unit) => unreadable(table_view(t@), little),
            Err(LoadError::Order) => disordered(table_view(t@), little),
            Err(LoadError::NotAnObject) => false,
        },
{
    let d: Dwarf = match load_dwarf(t, little) {
        Some(d) => d,
        None => {
            return Err(LoadError::Unit);
        },
    };
    let mut units: Vec<Unit> = Vec::new();
    let mut ui: usize = 0;
    while ui < usize::MAX
        invariant
            ui == units@.len(),
            dwarf_table(d) == table_view(t@),
            dwarf_little(d) == little,
            forall|i: int|
                0 <= i < units@.len() ==> unit_says(
                    #[trigger] units@[i],
                    table_view(t@),
                    little,
                    i as nat,
                ),
            forall|i: nat|
                i < ui ==> #[trigger] unit_read(table_view(t@), little, i) == Ok::<bool, Fault>(
                    true,
                ),
        decreases usize::MAX - ui,
    {
        if !root_is_tame(&d, ui) {
            proof {
                let _ = unit_read(table_view(t@), little, ui as nat);
            }
            return Err(LoadError::Unit);
        }
        match read_unit(&d, ui) {
            Err(_) => {
                assert(unit_read(table_view(t@), little, ui as nat) is Err);
                return Err(LoadError::Unit);
            },
            Ok(None) => {
                return Ok(units);
            },
            Ok(Some(u)) => {
                let (es, complete) = read_entries(t, little, &d, &u, Ghost(ui as nat));
                let ghost all = es@;
                match Unit::new(es, complete) {
                    Some(unit) => {
                        units.push(unit);
                    },
                    None => {
                        assert(entries_say(all, table_view(t@), little, ui as nat));
                        return Err(LoadError::Order);
                    },
                }
            },
        }
        ui = ui + 1;
    }
    assert(unit_read(table_view(t@), little, ui as nat) is Err || ui as nat == usize::MAX);
    Err(LoadError::Unit)
}

/// The sections that have a name and contents among the first `n` of an object file.
pub open spec fn object_table(bytes: Seq<u8>, n: nat) -> Table
    decreases n,
{
    if n == 0 {
        Seq::empty()
    } else {
        let rest = object_table(bytes, (n - 1) as nat);
        let k = (n - 1) as nat;
        match (object_section(bytes, k), object_contents(bytes, k)) {
            (Some(s), Some(b)) => match s.name {
                Some(name) => rest.push((name, b)),
                None => rest,
            },
            _ => rest,
        }
    }
}

/// Lists the sections of an object file that have a name and contents.
fn read_sections(i: &Image) -> (r: Vec<(String, &'static [u8])>)
    ensures
        is_table_of(table_view(r@), image_bytes(*i)),
{
    let ghost bytes = image_bytes(*i);
    let mut t: Vec<(String, &'static [u8])> = Vec::new();
    let mut k: usize = 0;
    assert(table_view(t@) =~= object_table(bytes, 0));
    while k < usize::MAX
        invariant
            bytes == image_bytes(*i),
            table_view(t@) == object_table(bytes, k as nat),
        decreases usize::MAX - k,
    {
        let ghost before = table_view(t@);
        match section_at(i, k) {
            None => {
                return t;
            },
            Some(s) => {
                if let (Some(name), Some(b)) = (s.name, contents_at(i, k)) {
                    let ghost row = (name@, b@);
                    t.push((name, b));
                    assert(table_view(t@) =~= before.push(row));
                }
            },
        }
        assert(table_view(t@) == object_table(bytes, (k + 1) as nat));
        k = k + 1;
    }
    t
}

/// Whether a table is that of all sections of the object file in these bytes.
pub open spec fn is_table_of(t: Table, bytes: Seq<u8>) -> bool {
    exists|n: nat|
        (n == usize::MAX || object_section(bytes, n) is None) && #[trigger] object_table(bytes, n)
            == t
}

/// What loading the units of a table comes to.
pub open spec fn is_loaded(r: Result<Store, LoadError>, t: Table, le: bool, slide: u64) -> bool {
    match r {
        Ok(s) => s.slid() == slide && units_say(s.all(), t, le),
        Err(LoadError::Unit) => unreadable(t, le),
        Err(LoadError::Order) => disordered(t, le),
        Err(LoadError::NotAnObject) => false,
    }
}

/// Loads the debugging information of an object file.
pub fn store(bytes: &'static [u8], slide: u64) -> (r: Result<Store, LoadError>)
    ensures
        r == Err::<Store, LoadError>(LoadError::NotAnObject) <==> !is_object(bytes@),
        is_object(bytes@) ==> exists|t: Table| #[trigger]
            is_table_of(t, bytes@) && is_loaded(r, t, object_little_endian(bytes@), slide),
{
    let image: Image = match parse_object(bytes) {
        None => {
            return Err(LoadError::NotAnObject);
        },
        Some(image) => image,
    };
    let little: bool = little_endian(&image);
    let t: Vec<(String, &'static [u8])> = read_sections(&image);
    assert(is_table_of(table_view(t@), bytes@));
    match read_units(&t, little) {
        Err(e) => Err(e),
        Ok(units) => Ok(Store::new(units, slide)),
    }
}

proof fn lemma_last_named(t: Table, name: Seq<char>, n: nat)
    requires
        n <= t.len(),
    ensures
        match last_named(t, name, n) {
            Some(b) => exists|i: int|
                0 <= i < n && #[trigger] t[i] == (name, b) && forall|j: int| i < j < n ==> (#[trigger] t[j]).0 != name,
            None => forall|j: int| 0 <= j < n ==> (#[trigger] t[j]).0 != name,
        },
    decreases n,
{
    if n > 0 {
        if t[n - 1].0 == name {
            assert(t[n - 1] == (name, t[n - 1].1));
        } else {
            lemma_last_named(t, name, (n - 1) as nat);
            if let Some(b) = last_named(t, name, (n - 1) as nat) {
                let i = choose|i: int|
                    0 <= i < n - 1 && #[trigger] t[i] == (name, b) && forall|j: int|
                        i < j < n - 1 ==> (#[trigger] t[j]).0 != name;
                assert(t[i] == (name, b));
            }
        }
    }
}

/// Whether bytes are those of the last section of a name.
pub open spec fn is_last_of(t: Table, name: Seq<char>, b: Seq<u8>) -> bool {
    exists|i: int|
        0 <= i < t.len() && #[trigger] t[i] == (name, b) && forall|j: int| i < j < t.len() ==> (#[trigger] t[j]).0 != name
}

/// A section is found under its ELF name, else under the name that it has in a Mach-O
/// file: two underscores in place of the dot, and no more than sixteen characters. What
/// is in neither has no contents.
pub proof fn law_section_is_found_under_either_name(t: Table, elf: Seq<char>)
    requires
        elf.len() > 0,
    ensures
        ({
            let full = seq!['_', '_'] + elf.skip(1);
            let other = if elf.len() > 15 {
                full.take(16)
            } else {
                full
            };
            let b = section_in(t, elf);
            ||| is_last_of(t, elf, b)
            ||| (forall|j: int| 0 <= j < t.len() ==> (#[trigger] t[j]).0 != elf) && is_last_of(t, other, b)
            ||| (forall|j: int| 0 <= j < t.len() ==> (#[trigger] t[j]).0 != elf && t[j].0 != other) && b.len() == 0
        }),
{
    reveal_strlit("__");
    assert("__"@ =~= seq!['_', '_']);
    lemma_last_named(t, elf, t.len());
    lemma_last_named(t, macho_name(elf), t.len());
}

/// The ranges of a subprogram that was loaded are those that were read, in their order;
/// its location is the expression or the list that was read. Only where something has
/// no place, or a length leads beyond the last address, are none taken.
pub proof fn law_entry_holds_its_places(e: Entry, t: Table, le: bool, ui: nat, k: nat, j: nat)
    requires
        entry_says(e, t, le, ui, k),
    ensures
        e.tag == 0x2e && die_tame(t, le, ui, k) && ranges_tame(t, le, ui, k) && !overlong(t, le, ui, k) ==> match e.ranges {
            Ranges::All(rs) => if j < rs@.len() {
                die_range(t, le, ui, k, j) == Ok::<Option<(u64, u64)>, Fault>(Some(rs@[j as int]))
            } else {
                j == rs@.len() ==> die_range(t, le, ui, k, j) == Ok::<Option<(u64, u64)>, Fault>(None)
            },
            Ranges::Broken(rs) => if j < rs@.len() {
                die_range(t, le, ui, k, j) == Ok::<Option<(u64, u64)>, Fault>(Some(rs@[j as int]))
            } else {
                j == rs@.len() && j < usize::MAX ==> die_range(t, le, ui, k, j) is Err
            },
        },
        die_attr(t, le, ui, k, 0x02) is None ==> e.location is Absent,
        die_attr(t, le, ui, k, 0x02) matches Some(AttrV::Exprloc(b)) ==> (e.location matches Location::Expr(got) && got@
            == b),
        die_attr(t, le, ui, k, 0x02) is Some && !(die_attr(t, le, ui, k, 0x02) matches Some(AttrV::Exprloc(_))) && die_tame(
            t,
            le,
            ui,
            k,
        ) && spans_tame(t, le, ui, k) ==> match e.location {
            Location::Absent => die_span(t, le, ui, k, 0) is None,
            Location::Expr(_) => false,
            Location::List(ss) => j < ss@.len() ==> die_span(t, le, ui, k, j) == Some(
                Ok::<Option<(u64, u64, Seq<u8>)>, Fault>(
                    Some((ss@[j as int].begin, ss@[j as int].end, ss@[j as int].expr@)),
                ),
            ),
            Location::BrokenList(ss) => j < ss@.len() ==> die_span(t, le, ui, k, j) == Some(
                Ok::<Option<(u64, u64, Seq<u8>)>, Fault>(
                    Some((ss@[j as int].begin, ss@[j as int].end, ss@[j as int].expr@)),
                ),
            ),
        },
{
}

/// Whether an object file has, at a position, a section of a name with contents.
pub open spec fn has_section(bytes: Seq<u8>, k: nat, name: Seq<char>, b: Seq<u8>) -> bool {
    object_contents(bytes, k) == Some(b) && (object_section(bytes, k) matches Some(s) && s.name == Some(name))
}

proof fn lemma_object_table(bytes: Seq<u8>, n: nat) -> (at: Seq<nat>)
    ensures
        at.len() == object_table(bytes, n).len(),
        forall|i: int|
            0 <= i < at.len() ==> #[trigger] at[i] < n && has_section(
                bytes,
                at[i],
                object_table(bytes, n)[i].0,
                object_table(bytes, n)[i].1,
            ),
        forall|i: int, j: int| 0 <= i < j < at.len() ==> #[trigger] at[i] < #[trigger] at[j],
        forall|k: nat, name: Seq<char>, b: Seq<u8>|
            k < n && #[trigger] has_section(bytes, k, name, b) ==> at.contains(k),
    decreases n,
{
    if n == 0 {
        Seq::empty()
    } else {
        let k = (n - 1) as nat;
        let less = lemma_object_table(bytes, k);
        let t = object_table(bytes, k);
        let all = object_table(bytes, n);
        if all == t {
            assert forall|j: nat, name: Seq<char>, b: Seq<u8>|
                j < n && #[trigger] has_section(bytes, j, name, b) implies less.contains(j) by {
                if j == k {
                    assert(all == t.push((name, b)));
                    assert(all.len() == t.len() + 1);
                }
            }
            less
        } else {
            let at = less.push(k);
            assert forall|i: int| 0 <= i < at.len() implies #[trigger] at[i] < n && has_section(
                bytes,
                at[i],
                all[i].0,
                all[i].1,
            ) by {
                if i < less.len() {
                    assert(at[i] == less[i]);
                    assert(all[i] == t[i]);
                }
            }
            assert forall|j: nat, name: Seq<char>, b: Seq<u8>|
                j < n && #[trigger] has_section(bytes, j, name, b) implies at.contains(j) by {
                if j < k {
                    assert(less.contains(j));
                    let i = choose|i: int| 0 <= i < less.len() && less[i] == j;
                    assert(at[i] == j);
                } else {
                    assert(at[less.len() as int] == j);
                }
            }
            assert forall|i: int, j: int| 0 <= i < j < at.len() implies #[trigger] at[i] < #[trigger] at[j] by {
                assert(at[i] == less[i]);
                if j < less.len() {
                    assert(at[j] == less[j]);
                }
            }
            at
        }
    }
}

/// The table of an object file lists its sections, all that have a name and contents and
/// no others, in their order.
pub proof fn law_table_lists_the_sections(bytes: Seq<u8>, n: nat) -> (at: Seq<nat>)
    ensures
        at.len() == object_table(bytes, n).len(),
        forall|i: int|
            0 <= i < at.len() ==> #[trigger] at[i] < n && has_section(
                bytes,
                at[i],
                object_table(bytes, n)[i].0,
                object_table(bytes, n)[i].1,
            ),
        forall|i: int, j: int| 0 <= i < j < at.len() ==> #[trigger] at[i] < #[trigger] at[j],
        forall|k: nat, name: Seq<char>, b: Seq<u8>|
            k < n && #[trigger] has_section(bytes, k, name, b) ==> at.contains(k),
{
    lemma_object_table(bytes, n)
}

} // verus!
