//! From a program counter to its subprogram, and from a pointer to the local
//! variable that lies there.
use crate::die::{
    child_offsets, die_name, entry, tag, type_ref, Attr, Entry, Fault, Location, Ranges, Span, Unit,
    AT_FRAME_BASE, TAG_FORMAL_PARAMETER, TAG_INLINED_SUBROUTINE, TAG_LEXICAL_BLOCK, TAG_SUBPROGRAM,
    TAG_VARIABLE,
};
use crate::die::attr_value;
use crate::leb128::try_sleb128;
use crate::text::{starts_with, str_eq};
use vstd::prelude::*;
use vstd::slice::*;
use vstd::string::*;

verus! {

/// `DW_OP_fbreg`: the frame base plus an offset.
pub const OP_FBREG: u8 = 0x91;

/// `DW_OP_call_frame_cfa`: the stack pointer before the call.
pub const OP_CALL_FRAME_CFA: u8 = 0x9c;

/// The location opcodes whose register numbers differ between machines.
#[derive(Clone, Copy, PartialEq, Eq, Structural, Debug)]
pub struct Opcodes {
    /// The frame-pointer register itself.
    pub reg_fp: u8,
    /// The frame-pointer register plus an offset.
    pub breg_fp: u8,
    /// The stack-pointer register plus an offset.
    pub breg_sp: u8,
}

impl Opcodes {
    /// On x86-64 the frame pointer is register 6 and the stack pointer is
    /// register 7.
    pub fn x86_64() -> (r: Opcodes)
        ensures
            r == (Opcodes { reg_fp: 0x56, breg_fp: 0x76, breg_sp: 0x77 }),
    {
        Opcodes { reg_fp: 0x56, breg_fp: 0x76, breg_sp: 0x77 }
    }

    /// On AArch64 the frame pointer is register 29 and the stack pointer is
    /// register 31.
    pub fn aarch64() -> (r: Opcodes)
        ensures
            r == (Opcodes { reg_fp: 0x6d, breg_fp: 0x8d, breg_sp: 0x8f }),
    {
        Opcodes { reg_fp: 0x6d, breg_fp: 0x8d, breg_sp: 0x8f }
    }
}

/// The register values that a location expression may refer to.
#[derive(Clone, Copy, PartialEq, Eq, Structural, Debug)]
pub struct Regs {
    /// The frame pointer.
    pub fp: u64,
    /// The stack pointer at the call site.
    pub sp: u64,
    /// What the subprogram's frame base comes to.
    pub frame_base: u64,
    pub ops: Opcodes,
}

/// The low 64 bits.
pub open spec fn wrap64(x: int) -> u64 {
    (x % 0x1_0000_0000_0000_0000) as u64
}

/// A register plus the offset that `rest` encodes, where nothing follows the
/// encoding or, with `trailing`, whatever follows.
pub open spec fn plus_offset(base: u64, rest: Seq<u8>, trailing: bool) -> Result<Option<u64>, Fault> {
    if !crate::leb128::sleb_ok(rest) {
        Err(Fault::Offset)
    } else {
        let (offset, used) = crate::leb128::spec_sleb128(rest);
        if used != rest.len() && !trailing {
            Ok(None)
        } else {
            Ok(Some(wrap64(base + offset)))
        }
    }
}

/// The address that a location expression gives: of the expressions that name
/// an address, those used for locals on the stack.
pub open spec fn addr_of(bytes: Seq<u8>, r: Regs) -> Result<Option<u64>, Fault> {
    if bytes.len() == 0 {
        Ok(None)
    } else if bytes[0] == OP_FBREG {
        plus_offset(r.frame_base, bytes.skip(1), false)
    } else if bytes[0] == OP_CALL_FRAME_CFA {
        Ok(Some(r.sp))
    } else if bytes[0] == r.ops.breg_fp {
        plus_offset(r.fp, bytes.skip(1), false)
    } else if bytes[0] == r.ops.breg_sp {
        plus_offset(r.sp, bytes.skip(1), false)
    } else {
        Ok(None)
    }
}

/// What a frame-base expression comes to.
pub open spec fn frame_base_of(bytes: Seq<u8>, fp: u64, sp: u64, ops: Opcodes) -> Result<
    Option<u64>,
    Fault,
> {
    if bytes.len() == 0 {
        Ok(None)
    } else if bytes[0] == OP_CALL_FRAME_CFA {
        Ok(Some(sp))
    } else if bytes[0] == ops.reg_fp {
        Ok(Some(fp))
    } else if bytes[0] == ops.breg_fp {
        plus_offset(fp, bytes.skip(1), true)
    } else {
        Ok(None)
    }
}

fn wrapping_plus(base: u64, offset: i64) -> (r: u64)
    ensures
        r == wrap64(base + offset),
{
    let sum: i128 = base as i128 + offset as i128;
    if sum < 0 {
        assert(sum + 0x1_0000_0000_0000_0000 == sum % 0x1_0000_0000_0000_0000);
        (sum + 0x1_0000_0000_0000_0000) as u64
    } else if sum >= 0x1_0000_0000_0000_0000 {
        assert(sum - 0x1_0000_0000_0000_0000 == sum % 0x1_0000_0000_0000_0000);
        (sum - 0x1_0000_0000_0000_0000) as u64
    } else {
        sum as u64
    }
}

fn offset_from(base: u64, bytes: &[u8], trailing: bool) -> (r: Result<Option<u64>, Fault>)
    requires
        bytes@.len() > 0,
    ensures
        r == plus_offset(base, bytes@.skip(1), trailing),
{
    let rest: &[u8] = slice_subrange(bytes, 1, bytes.len());
    assert(rest@ =~= bytes@.skip(1));
    match try_sleb128(rest) {
        None => Err(Fault::Offset),
        Some((offset, used)) => {
            if used != rest.len() && !trailing {
                Ok(None)
            } else {
                Ok(Some(wrapping_plus(base, offset)))
            }
        },
    }
}

/// The address that a location expression gives.
pub fn eval_addr(bytes: &[u8], r: Regs) -> (a: Result<Option<u64>, Fault>)
    ensures
        a == addr_of(bytes@, r),
{
    if bytes.len() == 0 {
        return Ok(None);
    }
    let op: u8 = bytes[0];
    if op == OP_FBREG {
        offset_from(r.frame_base, bytes, false)
    } else if op == OP_CALL_FRAME_CFA {
        Ok(Some(r.sp))
    } else if op == r.ops.breg_fp {
        offset_from(r.fp, bytes, false)
    } else if op == r.ops.breg_sp {
        offset_from(r.sp, bytes, false)
    } else {
        Ok(None)
    }
}

/// What a frame-base expression comes to.
pub fn frame_base(bytes: &[u8], fp: u64, sp: u64, ops: Opcodes) -> (r: Result<Option<u64>, Fault>)
    ensures
        r == frame_base_of(bytes@, fp, sp, ops),
{
    if bytes.len() == 0 {
        return Ok(None);
    }
    let op: u8 = bytes[0];
    if op == OP_CALL_FRAME_CFA {
        Ok(Some(sp))
    } else if op == ops.reg_fp {
        Ok(Some(fp))
    } else if op == ops.breg_fp {
        offset_from(fp, bytes, true)
    } else {
        Ok(None)
    }
}

/// Whether a range from the `k`th on contains an address.
pub open spec fn covered(rs: Seq<(u64, u64)>, pc: u64) -> bool {
    exists|k: int| 0 <= k < rs.len() && #[trigger] rs[k].0 <= pc < rs[k].1
}

/// Whether an entry is the subprogram of an address: yes, no, or not to be
/// told because its ranges break off.
pub open spec fn is_subprogram_of(e: Entry, pc: u64) -> Result<bool, Fault> {
    if e.tag != TAG_SUBPROGRAM {
        Ok(false)
    } else {
        match e.ranges {
            Ranges::All(rs) => Ok(covered(rs@, pc)),
            Ranges::Broken(rs) => if covered(rs@, pc) {
                Ok(true)
            } else {
                Err(Fault::Broken)
            },
        }
    }
}

/// The first subprogram of an address among a unit's entries from the `k`th on.
pub open spec fn subprogram_in(unit: Unit, pc: u64, k: nat) -> Result<Option<usize>, Fault>
    decreases unit.dies().len() - k,
{
    if k >= unit.dies().len() {
        if unit.whole() {
            Ok(None)
        } else {
            Err(Fault::Broken)
        }
    } else {
        match is_subprogram_of(unit.dies()[k as int], pc) {
            Err(e) => Err(e),
            Ok(true) => Ok(Some(unit.dies()[k as int].offset)),
            Ok(false) => subprogram_in(unit, pc, k + 1),
        }
    }
}

/// The first subprogram of an address among the units from the `ui`th on: the
/// unit's position and the entry's offset.
pub open spec fn subprogram_from(units: Seq<Unit>, pc: u64, ui: nat) -> Result<
    Option<(usize, usize)>,
    Fault,
>
    decreases units.len() - ui,
{
    if ui >= units.len() {
        Ok(None)
    } else {
        match subprogram_in(units[ui as int], pc, 0) {
            Err(e) => Err(e),
            Ok(Some(off)) => Ok(Some((ui as usize, off))),
            Ok(None) => subprogram_from(units, pc, ui + 1),
        }
    }
}

/// The subprogram found in a unit contains the address.
proof fn lemma_subprogram_in(unit: Unit, pc: u64, k: nat)
    ensures
        subprogram_in(unit, pc, k) matches Ok(Some(off)) ==> exists|i: int|
            0 <= i < unit.dies().len() && (#[trigger] unit.dies()[i]).offset == off
                && is_subprogram_of(unit.dies()[i], pc) == Ok::<bool, Fault>(true),
        subprogram_in(unit, pc, k) matches Ok(None) ==> forall|i: int|
            k <= i < unit.dies().len() ==> is_subprogram_of(#[trigger] unit.dies()[i], pc)
                == Ok::<bool, Fault>(false),
    decreases unit.dies().len() - k,
{
    if k < unit.dies().len() {
        lemma_subprogram_in(unit, pc, k + 1);
        assert(unit.dies()[k as int].offset == unit.dies()[k as int].offset);
    }
}

/// The unit of a subprogram that was found is one of those searched.
pub proof fn lemma_subprogram_from(units: Seq<Unit>, pc: u64, ui: nat)
    requires
        units.len() <= usize::MAX,
    ensures
        subprogram_from(units, pc, ui) matches Ok(Some((u, off))) ==> ui <= u < units.len()
            && subprogram_in(units[u as int], pc, 0) == Ok::<Option<usize>, Fault>(Some(off)),
        subprogram_from(units, pc, ui) matches Ok(None) ==> forall|u: int|
            ui <= u < units.len() ==> subprogram_in(#[trigger] units[u], pc, 0) == Ok::<
                Option<usize>,
                Fault,
            >(None),
    decreases units.len() - ui,
{
    if ui < units.len() {
        lemma_subprogram_from(units, pc, ui + 1);
    }
}

/// The subprogram found for an address contains it; where none is found, none
/// of the entries is a subprogram that does.
pub proof fn law_subprogram_contains(units: Seq<Unit>, pc: u64)
    requires
        units.len() <= usize::MAX,
    ensures
        subprogram_from(units, pc, 0) matches Ok(Some((u, off))) ==> u < units.len() && exists|
            i: int,
        |
            0 <= i < units[u as int].dies().len() && (#[trigger] units[u as int].dies()[i]).offset
                == off && is_subprogram_of(units[u as int].dies()[i], pc) == Ok::<bool, Fault>(
                true,
            ),
        subprogram_from(units, pc, 0) matches Ok(None) ==> forall|u: int, i: int|
            0 <= u < units.len() && 0 <= i < units[u].dies().len() ==> is_subprogram_of(
                #[trigger] units[u].dies()[i],
                pc,
            ) == Ok::<bool, Fault>(false),
{
    lemma_subprogram_from(units, pc, 0);
    if let Ok(Some((u, off))) = subprogram_from(units, pc, 0) {
        lemma_subprogram_in(units[u as int], pc, 0);
    }
    if let Ok(None) = subprogram_from(units, pc, 0) {
        assert forall|u: int, i: int|
            0 <= u < units.len() && 0 <= i < units[u].dies().len() implies is_subprogram_of(
            #[trigger] units[u].dies()[i],
            pc,
        ) == Ok::<bool, Fault>(false) by {
            lemma_subprogram_in(units[u], pc, 0);
        }
    }
}

fn covers(rs: &Vec<(u64, u64)>, pc: u64) -> (r: bool)
    ensures
        r == covered(rs@, pc),
{
    let mut k: usize = 0;
    while k < rs.len()
        invariant
            k <= rs@.len(),
            forall|j: int| 0 <= j < k ==> !(#[trigger] rs@[j].0 <= pc < rs@[j].1),
        decreases rs@.len() - k,
    {
        if rs[k].0 <= pc && pc < rs[k].1 {
            assert(rs@[k as int].0 <= pc < rs@[k as int].1);
            return true;
        }
        k = k + 1;
    }
    false
}

fn covers_entry(e: &Entry, pc: u64) -> (r: Result<bool, Fault>)
    ensures
        r == is_subprogram_of(*e, pc),
{
    if e.tag != TAG_SUBPROGRAM {
        return Ok(false);
    }
    match &e.ranges {
        Ranges::All(rs) => Ok(covers(rs, pc)),
        Ranges::Broken(rs) => if covers(rs, pc) {
            Ok(true)
        } else {
            Err(Fault::Broken)
        },
    }
}

/// Finds the subprogram whose code contains a link-time address.
pub fn subprogram_at(units: &Vec<Unit>, pc: u64) -> (r: Result<Option<(usize, usize)>, Fault>)
    ensures
        r == subprogram_from(units@, pc, 0),
{
    let mut ui: usize = 0;
    while ui < units.len()
        invariant
            ui <= units@.len(),
            subprogram_from(units@, pc, 0) == subprogram_from(units@, pc, ui as nat),
        decreases units@.len() - ui,
    {
        let unit: &Unit = &units[ui];
        let es: &Vec<Entry> = unit.entries();
        let mut k: usize = 0;
        while k < es.len()
            invariant
                ui < units@.len(),
                unit == units@[ui as int],
                es@ == unit.dies(),
                k <= es@.len(),
                subprogram_from(units@, pc, 0) == subprogram_from(units@, pc, ui as nat),
                subprogram_in(*unit, pc, 0) == subprogram_in(*unit, pc, k as nat),
            decreases es@.len() - k,
        {
            match covers_entry(&es[k], pc) {
                Err(e) => {
                    return Err(e);
                },
                Ok(true) => {
                    return Ok(Some((ui, es[k].offset)));
                },
                Ok(false) => {},
            }
            k = k + 1;
        }
        if !unit.complete() {
            return Err(Fault::Broken);
        }
        ui = ui + 1;
    }
    Ok(None)
}

/// The expression of the first span, from the `k`th on, that holds at an
/// address.
pub open spec fn span_at(spans: Seq<Span>, pc: u64, k: nat) -> Option<Seq<u8>>
    decreases spans.len() - k,
{
    if k >= spans.len() {
        None
    } else if spans[k as int].begin <= pc < spans[k as int].end {
        Some(spans[k as int].expr@)
    } else {
        span_at(spans, pc, k + 1)
    }
}

/// A variable's location expression at an address.
pub open spec fn location_at(l: Location, pc: u64) -> Result<Option<Seq<u8>>, Fault> {
    match l {
        Location::Absent => Ok(None),
        Location::Expr(b) => Ok(Some(b@)),
        Location::List(spans) => Ok(span_at(spans@, pc, 0)),
        Location::BrokenList(spans) => match span_at(spans@, pc, 0) {
            Some(b) => Ok(Some(b)),
            None => Err(Fault::Broken),
        },
    }
}

fn find_span(spans: &Vec<Span>, pc: u64) -> (r: Option<&Vec<u8>>)
    ensures
        match span_at(spans@, pc, 0) {
            Some(b) => r is Some && r->0@ == b,
            None => r is None,
        },
{
    let mut k: usize = 0;
    while k < spans.len()
        invariant
            k <= spans@.len(),
            span_at(spans@, pc, 0) == span_at(spans@, pc, k as nat),
        decreases spans@.len() - k,
    {
        if spans[k].begin <= pc && pc < spans[k].end {
            return Some(&spans[k].expr);
        }
        k = k + 1;
    }
    None
}

/// A variable's location expression at an address.
pub fn var_location(e: &Entry, pc: u64) -> (r: Result<Option<&Vec<u8>>, Fault>)
    ensures
        match location_at(e.location, pc) {
            Ok(Some(b)) => r matches Ok(Some(got)) && got@ == b,
            Ok(None) => r matches Ok(None),
            Err(f) => r matches Err(got) && got == f,
        },
{
    match &e.location {
        Location::Absent => Ok(None),
        Location::Expr(b) => Ok(Some(b)),
        Location::List(spans) => Ok(find_span(spans, pc)),
        Location::BrokenList(spans) => match find_span(spans, pc) {
            Some(b) => Ok(Some(b)),
            None => Err(Fault::Broken),
        },
    }
}

/// A local variable, as seen from one address.
#[derive(Debug)]
pub struct Local {
    pub name: String,
    /// The entry of its type.
    pub ty: Option<usize>,
    pub ty_name: String,
    /// Where it lies, as far as that can be told.
    pub addr: Option<u64>,
}

/// What a [`Local`] says.
pub struct LocalV {
    pub name: Seq<char>,
    pub ty: Option<usize>,
    pub ty_name: Seq<char>,
    pub addr: Option<u64>,
}

impl View for Local {
    type V = LocalV;

    open spec fn view(&self) -> LocalV {
        LocalV { name: self.name@, ty: self.ty, ty_name: self.ty_name@, addr: self.addr }
    }
}

/// What a list of locals says.
pub open spec fn locals_view(v: Seq<Local>) -> Seq<LocalV> {
    Seq::new(v.len(), |k: int| v[k]@)
}

/// The text, or none.
pub open spec fn or_empty(s: Option<Seq<char>>) -> Seq<char> {
    match s {
        Some(s) => s,
        None => Seq::empty(),
    }
}

/// Whether a local is a `MaybeUninit<..>`, which is what a destination is
/// declared as.
pub open spec fn is_uninit(l: LocalV) -> bool {
    l.ty is Some && crate::text::begins(l.ty_name, "MaybeUninit<"@)
}

/// Whether a local of a known type lies at an address.
pub open spec fn lies_at(l: LocalV, ptr: u64) -> bool {
    l.ty is Some && l.addr == Some(ptr)
}

/// The local at an offset.
pub open spec fn local_of(unit: Unit, off: usize, regs: Regs, pc: u64) -> Result<LocalV, Fault> {
    let es = unit.dies();
    let ty = crate::die::type_of(es, off);
    let name = or_empty(crate::die::name_of(es, off));
    let ty_name = match ty {
        Some(t) => or_empty(crate::die::name_of(es, t)),
        None => Seq::empty(),
    };
    match crate::die::entry_at(es, off) {
        None => Ok(LocalV { name, ty, ty_name, addr: None }),
        Some(e) => match location_at(e.location, pc) {
            Err(f) => Err(f),
            Ok(None) => Ok(LocalV { name, ty, ty_name, addr: None }),
            Ok(Some(expr)) => match addr_of(expr, regs) {
                Err(f) => Err(f),
                Ok(addr) => Ok(LocalV { name, ty, ty_name, addr }),
            },
        },
    }
}

/// What a walk over a subprogram's locals comes to.
pub enum Walk {
    /// It ends at the first `MaybeUninit<..>` that lies at the pointer.
    Hit(LocalV),
    /// It ends at something that cannot be read.
    Broken(Fault),
    /// It passes over all of these.
    All(Seq<LocalV>),
}

/// The same walk after some more locals that it passed over.
pub open spec fn after(first: Seq<LocalV>, w: Walk) -> Walk {
    match w {
        Walk::All(rest) => Walk::All(first + rest),
        _ => w,
    }
}

/// How deep lexical blocks and inlined subroutines are followed.
pub const MAX_DEPTH: u32 = 32;

/// The walk over the locals under an entry, those of its lexical blocks and
/// inlined subroutines included.
pub open spec fn walk(unit: Unit, parent: usize, depth: nat, regs: Regs, pc: u64, ptr: u64) -> Walk
    decreases MAX_DEPTH + 1 - depth, 1nat, 0nat,
{
    if depth > MAX_DEPTH {
        Walk::All(Seq::empty())
    } else {
        match crate::die::children(unit, parent) {
            Err(e) => Walk::Broken(e),
            Ok(kids) => walk_kids(unit, kids, 0, depth, regs, pc, ptr),
        }
    }
}

/// The walk over the entries of `kids` from the `k`th on.
pub open spec fn walk_kids(
    unit: Unit,
    kids: Seq<usize>,
    k: nat,
    depth: nat,
    regs: Regs,
    pc: u64,
    ptr: u64,
) -> Walk
    decreases MAX_DEPTH + 1 - depth, 0nat, kids.len() - k,
{
    if k >= kids.len() || depth > MAX_DEPTH {
        Walk::All(Seq::empty())
    } else {
        let off = kids[k as int];
        match crate::die::tag_of(unit.dies(), off) {
            None => Walk::Broken(Fault::Entry),
            Some(t) => if t == TAG_LEXICAL_BLOCK || t == TAG_INLINED_SUBROUTINE {
                match walk(unit, off, depth + 1, regs, pc, ptr) {
                    Walk::All(inner) => after(
                        inner,
                        walk_kids(unit, kids, k + 1, depth, regs, pc, ptr),
                    ),
                    other => other,
                }
            } else if t == TAG_VARIABLE || t == TAG_FORMAL_PARAMETER {
                match local_of(unit, off, regs, pc) {
                    Err(e) => Walk::Broken(e),
                    Ok(l) => if lies_at(l, ptr) && is_uninit(l) {
                        Walk::Hit(l)
                    } else {
                        after(seq![l], walk_kids(unit, kids, k + 1, depth, regs, pc, ptr))
                    },
                }
            } else {
                walk_kids(unit, kids, k + 1, depth, regs, pc, ptr)
            },
        }
    }
}

/// The first local, from the `k`th on, that lies at an address.
pub open spec fn first_at(ls: Seq<LocalV>, ptr: u64, k: nat) -> Option<LocalV>
    decreases ls.len() - k,
{
    if k >= ls.len() {
        None
    } else if lies_at(ls[k as int], ptr) {
        Some(ls[k as int])
    } else {
        first_at(ls, ptr, k + 1)
    }
}

/// The first `MaybeUninit<..>` local from the `k`th on.
pub open spec fn first_uninit(ls: Seq<LocalV>, k: nat) -> Option<LocalV>
    decreases ls.len() - k,
{
    if k >= ls.len() {
        None
    } else if is_uninit(ls[k as int]) {
        Some(ls[k as int])
    } else {
        first_uninit(ls, k + 1)
    }
}

/// Whether the `MaybeUninit<..>` locals are all of that type.
pub open spec fn all_of_type(ls: Seq<LocalV>, ty_name: Seq<char>) -> bool {
    forall|k: int| 0 <= k < ls.len() && is_uninit(#[trigger] ls[k]) ==> ls[k].ty_name == ty_name
}

/// The first `MaybeUninit<..>` local, where all of them are of one type.
pub open spec fn sole_uninit(ls: Seq<LocalV>) -> Option<LocalV> {
    match first_uninit(ls, 0) {
        Some(l) => if all_of_type(ls, l.ty_name) {
            Some(l)
        } else {
            None
        },
        None => None,
    }
}

/// The local that a pointer means: a `MaybeUninit<..>` that lies there, else
/// the first local that lies there, else the `MaybeUninit<..>` local where the
/// frame has one type of them.
pub open spec fn chosen(w: Walk, ptr: u64) -> Result<Option<LocalV>, Fault> {
    match w {
        Walk::Hit(l) => Ok(Some(l)),
        Walk::Broken(e) => Err(e),
        Walk::All(ls) => match first_at(ls, ptr, 0) {
            Some(l) => Ok(Some(l)),
            None => Ok(sole_uninit(ls)),
        },
    }
}

/// The local that a pointer means in the frame of a subprogram: its name and
/// the entry of its type.
pub open spec fn local_at(
    unit: Unit,
    sp: usize,
    fp: u64,
    cfa: u64,
    pc: u64,
    ptr: u64,
    ops: Opcodes,
) -> Result<Option<(Seq<char>, usize)>, Fault> {
    match crate::die::entry_at(unit.dies(), sp) {
        None => Ok(None),
        Some(e) => match crate::die::attr_of(e, AT_FRAME_BASE) {
            Some(Attr::Exprloc(expr)) => match frame_base_of(expr@, fp, cfa, ops) {
                Err(f) => Err(f),
                Ok(None) => Ok(None),
                Ok(Some(frame_base)) => {
                    let regs = Regs { fp, sp: cfa, frame_base, ops };
                    match chosen(walk(unit, sp, 0, regs, pc, ptr), ptr) {
                        Err(f) => Err(f),
                        Ok(None) => Ok(None),
                        Ok(Some(l)) => Ok(Some((l.name, l.ty->0))),
                    }
                },
            },
            _ => Ok(None),
        },
    }
}

/// A walk ends early only at a `MaybeUninit<..>` that lies at the pointer.
proof fn lemma_walk_hit(unit: Unit, parent: usize, depth: nat, regs: Regs, pc: u64, ptr: u64)
    ensures
        walk(unit, parent, depth, regs, pc, ptr) matches Walk::Hit(l) ==> lies_at(l, ptr)
            && is_uninit(l),
    decreases MAX_DEPTH + 1 - depth, 1nat, 0nat,
{
    if depth <= MAX_DEPTH {
        if let Ok(kids) = crate::die::children(unit, parent) {
            lemma_walk_kids_hit(unit, kids, 0, depth, regs, pc, ptr);
        }
    }
}

proof fn lemma_walk_kids_hit(
    unit: Unit,
    kids: Seq<usize>,
    k: nat,
    depth: nat,
    regs: Regs,
    pc: u64,
    ptr: u64,
)
    ensures
        walk_kids(unit, kids, k, depth, regs, pc, ptr) matches Walk::Hit(l) ==> lies_at(l, ptr)
            && is_uninit(l),
    decreases MAX_DEPTH + 1 - depth, 0nat, kids.len() - k,
{
    if k < kids.len() && depth <= MAX_DEPTH {
        lemma_walk_hit(unit, kids[k as int], depth + 1, regs, pc, ptr);
        lemma_walk_kids_hit(unit, kids, k + 1, depth, regs, pc, ptr);
    }
}

proof fn lemma_first_at(ls: Seq<LocalV>, ptr: u64, k: nat)
    ensures
        match first_at(ls, ptr, k) {
            Some(l) => lies_at(l, ptr),
            None => forall|j: int| k <= j < ls.len() ==> !lies_at(#[trigger] ls[j], ptr),
        },
    decreases ls.len() - k,
{
    if k < ls.len() && !lies_at(ls[k as int], ptr) {
        lemma_first_at(ls, ptr, k + 1);
    }
}

proof fn lemma_first_uninit(ls: Seq<LocalV>, k: nat)
    ensures
        match first_uninit(ls, k) {
            Some(l) => is_uninit(l),
            None => forall|j: int| k <= j < ls.len() ==> !is_uninit(#[trigger] ls[j]),
        },
    decreases ls.len() - k,
{
    if k < ls.len() && !is_uninit(ls[k as int]) {
        lemma_first_uninit(ls, k + 1);
    }
}

/// The chosen local is of a known type. It lies at the pointer unless no local
/// does; then it is a `MaybeUninit<..>`, and all of those in the frame are of
/// its type.
pub proof fn law_chosen_local(unit: Unit, sp: usize, regs: Regs, pc: u64, ptr: u64)
    ensures
        chosen(walk(unit, sp, 0, regs, pc, ptr), ptr) matches Ok(Some(l)) ==> {
            &&& l.ty is Some
            &&& lies_at(l, ptr) || {
                &&& is_uninit(l)
                &&& walk(unit, sp, 0, regs, pc, ptr) matches Walk::All(ls) && all_of_type(
                    ls,
                    l.ty_name,
                ) && forall|k: int| 0 <= k < ls.len() ==> !lies_at(#[trigger] ls[k], ptr)
            }
        },
{
    lemma_walk_hit(unit, sp, 0, regs, pc, ptr);
    if let Walk::All(ls) = walk(unit, sp, 0, regs, pc, ptr) {
        lemma_first_at(ls, ptr, 0);
        lemma_first_uninit(ls, 0);
    }
}

/// A `MaybeUninit<..>` that lies at the pointer is preferred to every other
/// local there: another one is chosen only where none of the locals is one.
pub proof fn law_uninit_is_preferred(unit: Unit, sp: usize, regs: Regs, pc: u64, ptr: u64)
    ensures
        chosen(walk(unit, sp, 0, regs, pc, ptr), ptr) matches Ok(Some(l)) ==> (lies_at(l, ptr)
            && !is_uninit(l) ==> walk(unit, sp, 0, regs, pc, ptr) is All && forall|k: int|
            0 <= k < walk(unit, sp, 0, regs, pc, ptr)->All_0.len() ==> !(is_uninit(
                #[trigger] walk(unit, sp, 0, regs, pc, ptr)->All_0[k],
            ) && lies_at(walk(unit, sp, 0, regs, pc, ptr)->All_0[k], ptr))),
{
    lemma_walk_hit(unit, sp, 0, regs, pc, ptr);
    lemma_walk_all(unit, sp, 0, regs, pc, ptr);
}

proof fn lemma_walk_all(unit: Unit, parent: usize, depth: nat, regs: Regs, pc: u64, ptr: u64)
    ensures
        walk(unit, parent, depth, regs, pc, ptr) matches Walk::All(ls) ==> forall|k: int|
            0 <= k < ls.len() ==> !(is_uninit(#[trigger] ls[k]) && lies_at(ls[k], ptr)),
    decreases MAX_DEPTH + 1 - depth, 1nat, 0nat,
{
    if depth <= MAX_DEPTH {
        if let Ok(kids) = crate::die::children(unit, parent) {
            lemma_walk_kids_all(unit, kids, 0, depth, regs, pc, ptr);
        }
    }
}

proof fn lemma_walk_kids_all(
    unit: Unit,
    kids: Seq<usize>,
    k: nat,
    depth: nat,
    regs: Regs,
    pc: u64,
    ptr: u64,
)
    ensures
        walk_kids(unit, kids, k, depth, regs, pc, ptr) matches Walk::All(ls) ==> forall|j: int|
            0 <= j < ls.len() ==> !(is_uninit(#[trigger] ls[j]) && lies_at(ls[j], ptr)),
    decreases MAX_DEPTH + 1 - depth, 0nat, kids.len() - k,
{
    if k < kids.len() && depth <= MAX_DEPTH {
        lemma_walk_all(unit, kids[k as int], depth + 1, regs, pc, ptr);
        lemma_walk_kids_all(unit, kids, k + 1, depth, regs, pc, ptr);
    }
}

/// The hunt for the local that lies at a pointer.
pub struct Hunt<'a> {
    pub unit: &'a Unit,
    pub regs: Regs,
    pub pc: u64,
    pub ptr: u64,
    /// The locals passed over so far.
    pub seen: Vec<Local>,
}

fn text_or_empty(s: Option<&String>) -> (r: String)
    ensures
        r@ == (match s {
            Some(t) => t@,
            None => Seq::empty(),
        }),
{
    match s {
        Some(t) => t.clone(),
        None => String::new(),
    }
}

fn local_from(unit: &Unit, off: usize, regs: Regs, pc: u64) -> (r: Result<Local, Fault>)
    ensures
        match local_of(*unit, off, regs, pc) {
            Ok(l) => r is Ok && r->Ok_0@ == l,
            Err(e) => r matches Err(got) && got == e,
        },
{
    let ty: Option<usize> = type_ref(unit, off);
    let name: String = text_or_empty(die_name(unit, off));
    let ty_name: String = match ty {
        Some(t) => text_or_empty(die_name(unit, t)),
        None => String::new(),
    };
    let addr: Option<u64> = match entry(unit, off) {
        None => None,
        Some(e) => match var_location(e, pc) {
            Err(f) => {
                return Err(f);
            },
            Ok(None) => None,
            Ok(Some(expr)) => match eval_addr(expr.as_slice(), regs) {
                Err(f) => {
                    return Err(f);
                },
                Ok(addr) => addr,
            },
        },
    };
    Ok(Local { name, ty, ty_name, addr })
}

fn uninit(l: &Local) -> (r: bool)
    ensures
        r == is_uninit(l@),
{
    l.ty.is_some() && starts_with(l.ty_name.as_str(), "MaybeUninit<")
}

fn at_pointer(l: &Local, ptr: u64) -> (r: bool)
    ensures
        r == lies_at(l@, ptr),
{
    l.ty.is_some() && match l.addr {
        Some(a) => a == ptr,
        None => false,
    }
}

impl<'a> Hunt<'a> {
    /// Walks over the locals under an entry. Where the walk passes over all of
    /// them they are added to those seen.
    pub fn scan(&mut self, parent: usize, depth: u32) -> (r: Result<Option<Local>, Fault>)
        ensures
            final(self).unit == old(self).unit,
            final(self).regs == old(self).regs,
            final(self).pc == old(self).pc,
            final(self).ptr == old(self).ptr,
            match walk(
                *old(self).unit,
                parent,
                depth as nat,
                old(self).regs,
                old(self).pc,
                old(self).ptr,
            ) {
                Walk::Hit(l) => r matches Ok(Some(got)) && got@ == l,
                Walk::Broken(e) => r matches Err(got) && got == e,
                Walk::All(ls) => (r matches Ok(None)) && locals_view(final(self).seen@)
                    == locals_view(old(self).seen@) + ls,
            },
        decreases MAX_DEPTH + 1 - depth,
    {
        if depth > MAX_DEPTH {
            assert(locals_view(self.seen@) + Seq::<LocalV>::empty() =~= locals_view(self.seen@));
            return Ok(None);
        }
        let unit: &'a Unit = self.unit;
        let ghost regs = self.regs;
        let ghost pc = self.pc;
        let ghost ptr = self.ptr;
        let ghost start = locals_view(self.seen@);
        let kids: Vec<usize> = match child_offsets(unit, parent) {
            Ok(kids) => kids,
            Err(e) => {
                return Err(e);
            },
        };
        let ghost whole = walk_kids(*unit, kids@, 0, depth as nat, regs, pc, ptr);
        let mut k: usize = 0;
        assert(locals_view(self.seen@) =~= start + Seq::<LocalV>::empty());
        assert(start.skip(start.len() as int) =~= Seq::<LocalV>::empty());
        assert(match whole {
            Walk::All(rest) => Seq::<LocalV>::empty() + rest =~= rest,
            _ => true,
        });
        while k < kids.len()
            invariant
                k <= kids@.len(),
                depth <= MAX_DEPTH,
                self.unit == unit,
                self.regs == regs,
                self.pc == pc,
                self.ptr == ptr,
                walk(*unit, parent, depth as nat, regs, pc, ptr) == whole,
                unit == old(self).unit,
                regs == old(self).regs,
                pc == old(self).pc,
                ptr == old(self).ptr,
                start == locals_view(old(self).seen@),
                start.len() <= self.seen@.len(),
                locals_view(self.seen@).take(start.len() as int) == start,
                whole == after(
                    locals_view(self.seen@).skip(start.len() as int),
                    walk_kids(*unit, kids@, k as nat, depth as nat, regs, pc, ptr),
                ),
            decreases kids@.len() - k,
        {
            let off: usize = kids[k];
            let ghost before = locals_view(self.seen@);
            let ghost rest = walk_kids(*unit, kids@, (k + 1) as nat, depth as nat, regs, pc, ptr);
            let ghost s = start.len() as int;
            match tag(unit, off) {
                None => {
                    return Err(Fault::Entry);
                },
                Some(t) => {
                    if t == TAG_LEXICAL_BLOCK || t == TAG_INLINED_SUBROUTINE {
                        match self.scan(off, depth + 1) {
                            Err(e) => {
                                return Err(e);
                            },
                            Ok(Some(l)) => {
                                return Ok(Some(l));
                            },
                            Ok(None) => {},
                        }
                        proof {
                            let w = walk(*unit, off, (depth + 1) as nat, regs, pc, ptr);
                            let inner = w->All_0;
                            let now = locals_view(self.seen@);
                            assert(now == before + inner);
                            assert(now.take(s) =~= start);
                            if let Walk::All(more) = rest {
                                assert(before.skip(s) + (inner + more) =~= now.skip(s) + more);
                            }
                        }
                    } else if t == TAG_VARIABLE || t == TAG_FORMAL_PARAMETER {
                        let l: Local = match local_from(unit, off, self.regs, self.pc) {
                            Err(e) => {
                                return Err(e);
                            },
                            Ok(l) => l,
                        };
                        if at_pointer(&l, self.ptr) && uninit(&l) {
                            return Ok(Some(l));
                        }
                        let ghost lv = l@;
                        self.seen.push(l);
                        proof {
                            let now = locals_view(self.seen@);
                            assert(now =~= before.push(lv));
                            assert(now.take(s) =~= start);
                            if let Walk::All(more) = rest {
                                assert(before.skip(s) + (seq![lv] + more) =~= now.skip(s) + more);
                            }
                        }
                    }
                },
            }
            k = k + 1;
        }
        proof {
            let now = locals_view(self.seen@);
            let s = start.len() as int;
            assert(now.skip(s) + Seq::<LocalV>::empty() =~= now.skip(s));
            assert(now =~= start + now.skip(s));
        }
        Ok(None)
    }

    /// The first local seen that lies at the pointer.
    pub fn fallback(&self) -> (r: Option<&Local>)
        ensures
            match first_at(locals_view(self.seen@), self.ptr, 0) {
                Some(l) => r matches Some(got) && got@ == l,
                None => r is None,
            },
    {
        let mut k: usize = 0;
        while k < self.seen.len()
            invariant
                k <= self.seen@.len(),
                first_at(locals_view(self.seen@), self.ptr, 0) == first_at(
                    locals_view(self.seen@),
                    self.ptr,
                    k as nat,
                ),
            decreases self.seen@.len() - k,
        {
            if at_pointer(&self.seen[k], self.ptr) {
                return Some(&self.seen[k]);
            }
            k = k + 1;
        }
        None
    }

    /// The first `MaybeUninit<..>` local seen, where all of them are of one
    /// type.
    pub fn sole_maybe_uninit(&self) -> (r: Option<&Local>)
        ensures
            match sole_uninit(locals_view(self.seen@)) {
                Some(l) => r matches Some(got) && got@ == l,
                None => r is None,
            },
    {
        let ghost ls = locals_view(self.seen@);
        let mut first: usize = 0;
        while first < self.seen.len() && !uninit(&self.seen[first])
            invariant
                first <= self.seen@.len(),
                ls == locals_view(self.seen@),
                first_uninit(ls, 0) == first_uninit(ls, first as nat),
                forall|j: int| 0 <= j < first ==> !is_uninit(#[trigger] ls[j]),
            decreases self.seen@.len() - first,
        {
            first = first + 1;
        }
        if first == self.seen.len() {
            return None;
        }
        let found: &Local = &self.seen[first];
        assert(ls[first as int] == found@);
        let mut k: usize = first + 1;
        while k < self.seen.len()
            invariant
                first < k <= self.seen@.len(),
                ls == locals_view(self.seen@),
                found@ == ls[first as int],
                first_uninit(ls, 0) == Some(found@),
                forall|j: int|
                    0 <= j < k && is_uninit(#[trigger] ls[j]) ==> ls[j].ty_name == found@.ty_name,
            decreases self.seen@.len() - k,
        {
            assert(ls[k as int] == self.seen@[k as int]@);
            if uninit(&self.seen[k]) && !str_eq(
                self.seen[k].ty_name.as_str(),
                found.ty_name.as_str(),
            ) {
                assert(!all_of_type(ls, found@.ty_name));
                return None;
            }
            k = k + 1;
        }
        Some(found)
    }
}

/// Finds the local that a pointer means in the frame of a subprogram: its name
/// and the entry of its type. The pointer is that of a `MaybeUninit<..>`; code
/// that reuses stack slots can have several locals there.
pub fn local_at_address(
    unit: &Unit,
    sp: usize,
    caller_fp: u64,
    caller_sp: u64,
    pc: u64,
    ptr: u64,
    ops: Opcodes,
) -> (r: Result<Option<(String, usize)>, Fault>)
    ensures
        match local_at(*unit, sp, caller_fp, caller_sp, pc, ptr, ops) {
            Ok(Some((name, ty))) => r matches Ok(Some(got)) && got.0@ == name && got.1 == ty,
            Ok(None) => r matches Ok(None),
            Err(e) => r matches Err(got) && got == e,
        },
{
    let base: u64 = match entry(unit, sp) {
        None => {
            return Ok(None);
        },
        Some(e) => match attr_value(e, AT_FRAME_BASE) {
            Some(Attr::Exprloc(expr)) => match frame_base(
                expr.as_slice(),
                caller_fp,
                caller_sp,
                ops,
            ) {
                Err(f) => {
                    return Err(f);
                },
                Ok(None) => {
                    return Ok(None);
                },
                Ok(Some(base)) => base,
            },
            _ => {
                return Ok(None);
            },
        },
    };
    let regs = Regs { fp: caller_fp, sp: caller_sp, frame_base: base, ops };
    let mut hunt = Hunt { unit, regs, pc, ptr, seen: Vec::new() };
    proof {
        law_chosen_local(*unit, sp, regs, pc, ptr);
    }
    let hit: Option<Local> = match hunt.scan(sp, 0) {
        Err(e) => {
            return Err(e);
        },
        Ok(hit) => hit,
    };
    if let Some(l) = hit {
        return match l.ty {
            Some(t) => Ok(Some((l.name, t))),
            None => Ok(None),
        };
    }
    let found: Option<&Local> = match hunt.fallback() {
        Some(l) => Some(l),
        None => hunt.sole_maybe_uninit(),
    };
    match found {
        Some(l) => match l.ty {
            Some(t) => Ok(Some((l.name.clone(), t))),
            None => Ok(None),
        },
        None => Ok(None),
    }
}

// ---------------------------------------------------------------------------
// What is found.
// ---------------------------------------------------------------------------

/// A local at an offset from the frame base lies there, and one at an offset from the
/// frame pointer or the stack pointer lies there, addresses being of 64 bits.
pub proof fn law_slot_lies_at_its_offset(x: i64, r: Regs)
    ensures
        addr_of(seq![0x91u8] + crate::leb128::sleb_encode(x as int), r) matches Ok(Some(a)) && a == (r.frame_base + x)
            % 0x1_0000_0000_0000_0000,
        r.ops.breg_fp != 0x91 && r.ops.breg_fp != 0x9c ==> (addr_of(
            seq![r.ops.breg_fp] + crate::leb128::sleb_encode(x as int),
            r,
        ) matches Ok(Some(a)) && a == (r.fp + x) % 0x1_0000_0000_0000_0000),
        r.ops.breg_sp != 0x91 && r.ops.breg_sp != 0x9c && r.ops.breg_sp != r.ops.breg_fp ==> (addr_of(
            seq![r.ops.breg_sp] + crate::leb128::sleb_encode(x as int),
            r,
        ) matches Ok(Some(a)) && a == (r.sp + x) % 0x1_0000_0000_0000_0000),
        addr_of(seq![0x9cu8], r) == Ok::<Option<u64>, Fault>(Some(r.sp)),
{
    let code = crate::leb128::sleb_encode(x as int);
    crate::leb128::law_sleb_comes_back(x, Seq::empty());
    assert(code + Seq::<u8>::empty() =~= code);
    assert((seq![0x91u8] + code).skip(1) =~= code);
    assert((seq![r.ops.breg_fp] + code).skip(1) =~= code);
    assert((seq![r.ops.breg_sp] + code).skip(1) =~= code);
    assert(0 <= (r.frame_base + x) % 0x1_0000_0000_0000_0000 < 0x1_0000_0000_0000_0000);
    assert(0 <= (r.fp + x) % 0x1_0000_0000_0000_0000 < 0x1_0000_0000_0000_0000);
    assert(0 <= (r.sp + x) % 0x1_0000_0000_0000_0000 < 0x1_0000_0000_0000_0000);
}

/// A frame begins at the frame pointer, at an offset from it, or where the stack
/// pointer was before the call, as its expression says.
pub proof fn law_frame_begins_where_it_says(x: i64, fp: u64, sp: u64, ops: Opcodes, rest: Seq<u8>)
    ensures
        frame_base_of(seq![0x9cu8] + rest, fp, sp, ops) == Ok::<Option<u64>, Fault>(Some(sp)),
        ops.reg_fp != 0x9c ==> frame_base_of(seq![ops.reg_fp] + rest, fp, sp, ops) == Ok::<Option<u64>, Fault>(Some(fp)),
        ops.breg_fp != 0x9c && ops.breg_fp != ops.reg_fp ==> (frame_base_of(
            seq![ops.breg_fp] + (crate::leb128::sleb_encode(x as int) + rest),
            fp,
            sp,
            ops,
        ) matches Ok(Some(a)) && a == (fp + x) % 0x1_0000_0000_0000_0000),
{
    let code = crate::leb128::sleb_encode(x as int) + rest;
    crate::leb128::law_sleb_comes_back(x, rest);
    assert((seq![ops.breg_fp] + code).skip(1) =~= code);
    assert(0 <= (fp + x) % 0x1_0000_0000_0000_0000 < 0x1_0000_0000_0000_0000);
}

proof fn lemma_span_at(spans: Seq<Span>, pc: u64, k: nat)
    ensures
        match span_at(spans, pc, k) {
            Some(b) => exists|i: int|
                k <= i < spans.len() && (#[trigger] spans[i]).begin <= pc < spans[i].end && spans[i].expr@ == b
                    && forall|j: int| k <= j < i ==> !((#[trigger] spans[j]).begin <= pc < spans[j].end),
            None => forall|j: int| k <= j < spans.len() ==> !((#[trigger] spans[j]).begin <= pc < spans[j].end),
        },
    decreases spans.len() - k,
{
    if k < spans.len() {
        if spans[k as int].begin <= pc < spans[k as int].end {
            assert(spans[k as int].expr@ == spans[k as int].expr@);
        } else {
            lemma_span_at(spans, pc, k + 1);
            if let Some(b) = span_at(spans, pc, k + 1) {
                let i = choose|i: int|
                    k + 1 <= i < spans.len() && (#[trigger] spans[i]).begin <= pc < spans[i].end && spans[i].expr@ == b
                        && forall|j: int| k + 1 <= j < i ==> !((#[trigger] spans[j]).begin <= pc < spans[j].end);
                assert(spans[i].expr@ == b);
            }
        }
    }
}

/// Where a variable is at an address: what its one expression says, or the first of a
/// list that holds there.
pub proof fn law_location_is_the_one_that_holds(l: Location, pc: u64)
    ensures
        match l {
            Location::Absent => location_at(l, pc) == Ok::<Option<Seq<u8>>, Fault>(None),
            Location::Expr(b) => location_at(l, pc) == Ok::<Option<Seq<u8>>, Fault>(Some(b@)),
            Location::List(ss) => match location_at(l, pc) {
                Ok(Some(b)) => exists|i: int|
                    0 <= i < ss@.len() && (#[trigger] ss@[i]).begin <= pc < ss@[i].end && ss@[i].expr@ == b && forall|
                        j: int,
                    |
                        0 <= j < i ==> !((#[trigger] ss@[j]).begin <= pc < ss@[j].end),
                Ok(None) => forall|j: int| 0 <= j < ss@.len() ==> !((#[trigger] ss@[j]).begin <= pc < ss@[j].end),
                Err(_) => false,
            },
            Location::BrokenList(ss) => match location_at(l, pc) {
                Ok(Some(b)) => exists|i: int|
                    0 <= i < ss@.len() && (#[trigger] ss@[i]).begin <= pc < ss@[i].end && ss@[i].expr@ == b && forall|
                        j: int,
                    |
                        0 <= j < i ==> !((#[trigger] ss@[j]).begin <= pc < ss@[j].end),
                Ok(None) => false,
                Err(_) => forall|j: int| 0 <= j < ss@.len() ==> !((#[trigger] ss@[j]).begin <= pc < ss@[j].end),
            },
        },
{
    match l {
        Location::List(ss) => lemma_span_at(ss@, pc, 0),
        Location::BrokenList(ss) => lemma_span_at(ss@, pc, 0),
        _ => {},
    }
}

/// A local is what its entry says: its name, its type and the type's name, and the
/// address that its location comes to, where there is one.
pub proof fn law_local_is_what_its_entry_says(unit: Unit, v: int, regs: Regs, pc: u64)
    requires
        crate::die::ascending(unit.dies()),
        0 <= v < unit.dies().len(),
    ensures
        ({
            let es = unit.dies();
            let off = es[v].offset;
            match local_of(unit, off, regs, pc) {
                Ok(l) => {
                    &&& match crate::die::name_of(es, off) {
                        Some(s) => l.name == s,
                        None => l.name.len() == 0,
                    }
                    &&& l.ty == crate::die::type_of(es, off)
                    &&& match l.ty {
                        Some(t) => match crate::die::name_of(es, t) {
                            Some(s) => l.ty_name == s,
                            None => l.ty_name.len() == 0,
                        },
                        None => l.ty_name.len() == 0,
                    }
                    &&& match location_at(es[v].location, pc) {
                        Ok(Some(expr)) => addr_of(expr, regs) == Ok::<Option<u64>, Fault>(l.addr),
                        Ok(None) => l.addr is None,
                        Err(_) => false,
                    }
                },
                Err(f) => match location_at(es[v].location, pc) {
                    Ok(Some(expr)) => addr_of(expr, regs) == Err::<Option<u64>, Fault>(f),
                    Ok(None) => false,
                    Err(g) => f == g,
                },
            }
        }),
{
    crate::die::lemma_index_of(unit.dies(), unit.dies()[v].offset, v);
}

/// Whether an entry is a subprogram with an address among its ranges.
pub open spec fn runs_at(e: Entry, pc: u64) -> bool {
    e.tag == 0x2e && match e.ranges {
        Ranges::All(rs) => exists|k: int| 0 <= k < rs@.len() && #[trigger] rs@[k].0 <= pc < rs@[k].1,
        Ranges::Broken(rs) => exists|k: int| 0 <= k < rs@.len() && #[trigger] rs@[k].0 <= pc < rs@[k].1,
    }
}

/// Whether it can be told of an entry if it is the subprogram of an address.
pub open spec fn can_tell(e: Entry, pc: u64) -> bool {
    e.tag == 0x2e && e.ranges is Broken ==> runs_at(e, pc)
}

proof fn lemma_runs_at(e: Entry, pc: u64)
    ensures
        is_subprogram_of(e, pc) == (if runs_at(e, pc) {
            Ok(true)
        } else if can_tell(e, pc) {
            Ok(false)
        } else {
            Err::<bool, Fault>(Fault::Broken)
        }),
{
}

proof fn lemma_subprogram_of_unit(unit: Unit, pc: u64, k: nat)
    requires
        k <= unit.dies().len(),
    ensures
        ({
            let es = unit.dies();
            match subprogram_in(unit, pc, k) {
                Ok(Some(off)) => exists|i: int|
                    k <= i < es.len() && (#[trigger] es[i]).offset == off && runs_at(es[i], pc) && forall|j: int|
                        k <= j < i ==> !runs_at(#[trigger] es[j], pc) && can_tell(es[j], pc),
                Ok(None) => unit.whole() && forall|j: int| k <= j < es.len() ==> !runs_at(#[trigger] es[j], pc),
                Err(_) => (!unit.whole() && forall|j: int| k <= j < es.len() ==> !runs_at(#[trigger] es[j], pc))
                    || exists|i: int|
                    k <= i < es.len() && !can_tell(#[trigger] es[i], pc) && forall|j: int|
                        k <= j < i ==> !runs_at(#[trigger] es[j], pc),
            }
        }),
    decreases unit.dies().len() - k,
{
    let es = unit.dies();
    if k < es.len() {
        lemma_runs_at(es[k as int], pc);
        match is_subprogram_of(es[k as int], pc) {
            Err(f) => {
                assert(!can_tell(es[k as int], pc));
            },
            Ok(true) => {
                assert(es[k as int].offset == es[k as int].offset);
            },
            Ok(false) => {
                lemma_subprogram_of_unit(unit, pc, k + 1);
                match subprogram_in(unit, pc, k + 1) {
                    Ok(Some(off)) => {
                        let i = choose|i: int|
                            k + 1 <= i < es.len() && (#[trigger] es[i]).offset == off && runs_at(es[i], pc)
                                && forall|j: int| k + 1 <= j < i ==> !runs_at(#[trigger] es[j], pc) && can_tell(es[j], pc);
                        assert(es[i].offset == off);
                    },
                    Ok(None) => {},
                    Err(_) => {
                        if exists|i: int|
                            k + 1 <= i < es.len() && !can_tell(#[trigger] es[i], pc) && forall|j: int|
                                k + 1 <= j < i ==> !runs_at(#[trigger] es[j], pc) {
                            let i = choose|i: int|
                                k + 1 <= i < es.len() && !can_tell(#[trigger] es[i], pc) && forall|j: int|
                                    k + 1 <= j < i ==> !runs_at(#[trigger] es[j], pc);
                            assert(!can_tell(es[i], pc));
                        }
                    },
                }
            },
        }
    }
}

/// The subprogram found for an address is the first that has it among its ranges, over
/// all units. One is found wherever there is one and every unit can be read.
pub proof fn law_subprogram_is_the_first_there(units: Seq<Unit>, pc: u64)
    requires
        units.len() <= usize::MAX,
    ensures
        match subprogram_from(units, pc, 0) {
            Ok(Some((u, off))) => u < units.len() && exists|i: int|
                0 <= i < units[u as int].dies().len() && (#[trigger] units[u as int].dies()[i]).offset == off && runs_at(
                    units[u as int].dies()[i],
                    pc,
                ) && forall|v: int, j: int|
                    0 <= v < units.len() && 0 <= j < units[v].dies().len() && (v < u || (v == u && j < i)) ==> !runs_at(
                        #[trigger] units[v].dies()[j],
                        pc,
                    ),
            Ok(None) => forall|v: int, j: int|
                0 <= v < units.len() && 0 <= j < units[v].dies().len() ==> !runs_at(#[trigger] units[v].dies()[j], pc),
            Err(_) => exists|v: int|
                0 <= v < units.len() && (!(#[trigger] units[v]).whole() || exists|i: int|
                    0 <= i < units[v].dies().len() && !can_tell(#[trigger] units[v].dies()[i], pc)),
        },
{
    lemma_subprogram_of_units(units, pc, 0);
}

proof fn lemma_subprogram_of_units(units: Seq<Unit>, pc: u64, ui: nat)
    requires
        units.len() <= usize::MAX,
        ui <= units.len(),
        forall|v: int, j: int|
            0 <= v < ui && 0 <= j < units[v].dies().len() ==> !runs_at(#[trigger] units[v].dies()[j], pc),
    ensures
        match subprogram_from(units, pc, ui) {
            Ok(Some((u, off))) => u < units.len() && exists|i: int|
                0 <= i < units[u as int].dies().len() && (#[trigger] units[u as int].dies()[i]).offset == off && runs_at(
                    units[u as int].dies()[i],
                    pc,
                ) && forall|v: int, j: int|
                    0 <= v < units.len() && 0 <= j < units[v].dies().len() && (v < u || (v == u && j < i)) ==> !runs_at(
                        #[trigger] units[v].dies()[j],
                        pc,
                    ),
            Ok(None) => forall|v: int, j: int|
                0 <= v < units.len() && 0 <= j < units[v].dies().len() ==> !runs_at(#[trigger] units[v].dies()[j], pc),
            Err(_) => exists|v: int|
                0 <= v < units.len() && (!(#[trigger] units[v]).whole() || exists|i: int|
                    0 <= i < units[v].dies().len() && !can_tell(#[trigger] units[v].dies()[i], pc)),
        },
    decreases units.len() - ui,
{
    if ui < units.len() {
        let unit = units[ui as int];
        let es = unit.dies();
        lemma_subprogram_of_unit(unit, pc, 0);
        match subprogram_in(unit, pc, 0) {
            Err(f) => {
                assert(!units[ui as int].whole() || exists|i: int|
                    0 <= i < units[ui as int].dies().len() && !can_tell(#[trigger] units[ui as int].dies()[i], pc));
            },
            Ok(Some(off)) => {
                let i = choose|i: int|
                    0 <= i < es.len() && (#[trigger] es[i]).offset == off && runs_at(es[i], pc) && forall|j: int|
                        0 <= j < i ==> !runs_at(#[trigger] es[j], pc) && can_tell(es[j], pc);
                assert(units[ui as int].dies()[i].offset == off);
            },
            Ok(None) => {
                lemma_subprogram_of_units(units, pc, ui + 1);
            },
        }
    }
}

} // verus!
