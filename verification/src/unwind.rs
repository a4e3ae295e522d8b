//! Unwinding one frame. The unwinder is `framehop`, which reads the program's
//! call-frame information, so that the caller's registers come out right in
//! optimised code too. It asks for words of the stack; those that are not known
//! yet are asked for in turn.
use crate::frame::{Caller, Raw};
use crate::load::{parse_object, section_by_name, Image, Section, SectionV};
use framehop::x86_64::{CacheX86_64, UnwindRegsX86_64, UnwinderX86_64};
use gimli::{BaseAddresses, CfaRule, EhFrame, EhFrameHdr, EhFrameOffset, LittleEndian, Register, RegisterRule};
use gimli::{UnwindContext, UnwindSection};
use framehop::{ExplicitModuleSectionInfo, FrameAddress, MayAllocateDuringUnwind, Module, Unwinder};
use vstd::prelude::*;

verus! {

/// A section's addresses and bytes.
pub struct Piece {
    pub start: u64,
    pub end: u64,
    pub data: Option<&'static [u8]>,
}

/// What a [`Piece`] says.
pub struct PieceV {
    pub start: u64,
    pub end: u64,
    pub data: Option<Seq<u8>>,
}

impl View for Piece {
    type V = PieceV;

    open spec fn view(&self) -> PieceV {
        PieceV {
            start: self.start,
            end: self.end,
            data: match self.data {
                Some(b) => Some(b@),
                None => None,
            },
        }
    }
}

/// A loaded program: where it lies, and the sections that unwinding needs.
pub struct Program {
    pub name: String,
    pub start: u64,
    pub end: u64,
    pub base: u64,
    pub text: Piece,
    pub eh_frame: Option<Piece>,
    pub eh_frame_hdr: Option<Piece>,
}

/// What a [`Program`] says, but for its name, which plays no part.
pub struct ProgramV {
    pub start: u64,
    pub end: u64,
    pub base: u64,
    pub text: PieceV,
    pub eh_frame: Option<PieceV>,
    pub eh_frame_hdr: Option<PieceV>,
}

/// What an optional piece says.
pub open spec fn piece_view(p: Option<Piece>) -> Option<PieceV> {
    match p {
        Some(p) => Some(p@),
        None => None,
    }
}

impl View for Program {
    type V = ProgramV;

    open spec fn view(&self) -> ProgramV {
        ProgramV {
            start: self.start,
            end: self.end,
            base: self.base,
            text: self.text@,
            eh_frame: piece_view(self.eh_frame),
            eh_frame_hdr: piece_view(self.eh_frame_hdr),
        }
    }
}

/// `framehop::x86_64::UnwinderX86_64`: a collection of modules.
#[verifier::external_type_specification]
#[verifier::external_body]
#[verifier::reject_recursive_types(D)]
#[verifier::reject_recursive_types(P)]
pub struct ExUnwinderX86_64<D, P>(framehop::x86_64::UnwinderX86_64<D, P>);

/// `framehop::MayAllocateDuringUnwind`: a marker.
#[verifier::external_type_specification]
#[verifier::external_body]
pub struct ExMayAllocateDuringUnwind(framehop::MayAllocateDuringUnwind);

/// The programs that an unwinder knows, in the order in which they were added.
pub uninterp spec fn programs_of(
    u: UnwinderX86_64<&'static [u8], MayAllocateDuringUnwind>,
) -> Seq<ProgramV>;

/// What unwinding one frame comes to.
#[derive(Clone, Copy, PartialEq, Eq, Structural, Debug)]
pub enum Unwound {
    /// The return address, and the caller's stack and frame pointers.
    Frame { ret: u64, sp: u64, fp: u64 },
    /// There is no caller.
    Root,
    /// It cannot be done.
    Failed,
}

/// What `framehop` makes of a frame, given the programs, the registers and the
/// words of the stack that are known; and the first address that it asked for
/// among those that are not.
pub uninterp spec fn unwound(
    programs: Seq<ProgramV>,
    pc: u64,
    sp: u64,
    fp: u64,
    known: Seq<(u64, u64)>,
) -> (Unwound, Option<u64>);

/// The words of the stack that are known, each with its address.
pub struct StackWords {
    pub known: Vec<(u64, u64)>,
    /// The first address that was asked for without being known.
    pub missing: Option<u64>,
}

/// The first word at an address, from the `k`th on.
pub open spec fn word_at(known: Seq<(u64, u64)>, addr: u64, k: nat) -> Option<u64>
    decreases known.len() - k,
{
    if k >= known.len() {
        None
    } else if known[k as int].0 == addr {
        Some(known[k as int].1)
    } else {
        word_at(known, addr, k + 1)
    }
}

impl StackWords {
    /// The word at an address. One that is not known is noted.
    pub fn read(&mut self, addr: u64) -> (r: Result<u64, ()>)
        ensures
            final(self).known == old(self).known,
            match word_at(old(self).known@, addr, 0) {
                Some(w) => r matches Ok(got) && got == w && final(self).missing == old(self).missing,
                None => r is Err && final(self).missing == (match old(self).missing {
                    Some(a) => Some(a),
                    None => Some(addr),
                }),
            },
    {
        let mut k: usize = 0;
        while k < self.known.len()
            invariant
                k <= self.known@.len(),
                *self == *old(self),
                word_at(self.known@, addr, 0) == word_at(self.known@, addr, k as nat),
            decreases self.known@.len() - k,
        {
            if self.known[k].0 == addr {
                return Ok(self.known[k].1);
            }
            k = k + 1;
        }
        if self.missing.is_none() {
            self.missing = Some(addr);
        }
        Err(())
    }
}

/// `framehop::x86_64::UnwinderX86_64::new`: an unwinder that knows no program.
#[verifier::external_body]
fn new_unwinder() -> (u: UnwinderX86_64<&'static [u8], MayAllocateDuringUnwind>)
    ensures
        programs_of(u) == Seq::<ProgramV>::empty(),
{
    UnwinderX86_64::new()
}

/// `framehop::Unwinder::add_module`: makes a program known, described by its
/// address range, its base address and the addresses and bytes of its sections.
#[verifier::external_body]
fn add_module(u: &mut UnwinderX86_64<&'static [u8], MayAllocateDuringUnwind>, p: &Program)
    ensures
        programs_of(*final(u)) == programs_of(*old(u)).push(p@),
{
    let info = ExplicitModuleSectionInfo {
        text_svma: Some(p.text.start..p.text.end),
        text: p.text.data,
        eh_frame_svma: p.eh_frame.as_ref().map(|s| s.start..s.end),
        eh_frame: p.eh_frame.as_ref().and_then(|s| s.data),
        eh_frame_hdr_svma: p.eh_frame_hdr.as_ref().map(|s| s.start..s.end),
        eh_frame_hdr: p.eh_frame_hdr.as_ref().and_then(|s| s.data),
        ..Default::default()
    };
    u.add_module(Module::new(p.name.clone(), p.start..p.end, p.base, info));
}

/// How a frame's canonical address, which the places of saved registers are told
/// from, comes about.
#[derive(Clone, Copy, PartialEq, Eq, Structural, Debug)]
pub enum Cfa {
    /// A register, and what is added to it.
    Register(u16, i64),
    /// An expression.
    Expression,
}

/// Where the caller's value of a register is.
#[derive(Clone, Copy, PartialEq, Eq, Structural, Debug)]
pub enum Saved {
    /// At a distance from the canonical address.
    Offset(i64),
    /// Where an expression says, or what it comes to.
    Expression,
    /// Elsewhere, or it is not told.
    Otherwise,
}

/// What call-frame information says of an address and a register.
#[derive(Clone, Copy, PartialEq, Eq, Structural, Debug)]
pub struct Row {
    pub cfa: Cfa,
    pub saved: Saved,
}

/// How the canonical address comes about, at an address, where the call-frame
/// information at an offset of a section says so. The section, the code and the
/// global offset table lie at `bases`.
pub uninterp spec fn frame_cfa(frame: Seq<u8>, bases: (u64, u64, u64), at: nat, addr: u64) -> Option<Cfa>;

/// Where the caller's value of a register is, at an address, where the call-frame
/// information at an offset of a section says so.
pub uninterp spec fn frame_saved(
    frame: Seq<u8>,
    bases: (u64, u64, u64),
    at: nat,
    addr: u64,
    reg: u16,
) -> Option<Saved>;

/// What the call-frame information at an offset of a section says of an address and
/// a register, where it says something.
pub open spec fn frame_row(frame: Seq<u8>, bases: (u64, u64, u64), at: nat, addr: u64, reg: u16) -> Option<Row> {
    match (frame_cfa(frame, bases, at, addr), frame_saved(frame, bases, at, addr, reg)) {
        (Some(cfa), Some(saved)) => Some(Row { cfa, saved }),
        _ => None,
    }
}

/// `gimli::UnwindSection::fde_from_offset`,
/// `gimli::FrameDescriptionEntry::unwind_info_for_address` and
/// `gimli::UnwindTableRow::cfa`: the canonical address, as the entry at an offset
/// tells it for an address.
#[verifier::external_body]
fn cfa_at(frame: &'static [u8], bases: (u64, u64, u64), at: usize, addr: u64) -> (r: Option<Cfa>)
    ensures
        r == frame_cfa(frame@, bases, at as nat, addr),
{
    let b = BaseAddresses::default().set_eh_frame(bases.0).set_text(bases.1).set_got(bases.2);
    let mut section = EhFrame::new(frame, LittleEndian);
    section.set_address_size(8);
    let fde = section.fde_from_offset(&b, EhFrameOffset(at), EhFrame::cie_from_offset).ok()?;
    let mut ctx = UnwindContext::new();
    match fde.unwind_info_for_address(&section, &b, &mut ctx, addr).ok()?.cfa() {
        CfaRule::RegisterAndOffset { register, offset } => Some(Cfa::Register(register.0, *offset)),
        CfaRule::Expression(_) => Some(Cfa::Expression),
    }
}

/// `gimli::UnwindTableRow::register`, of the same row: a register, as the entry at an
/// offset tells it for an address.
#[verifier::external_body]
fn saved_at(frame: &'static [u8], bases: (u64, u64, u64), at: usize, addr: u64, reg: u16) -> (r: Option<Saved>)
    ensures
        r == frame_saved(frame@, bases, at as nat, addr, reg),
{
    let b = BaseAddresses::default().set_eh_frame(bases.0).set_text(bases.1).set_got(bases.2);
    let mut section = EhFrame::new(frame, LittleEndian);
    section.set_address_size(8);
    let fde = section.fde_from_offset(&b, EhFrameOffset(at), EhFrame::cie_from_offset).ok()?;
    let mut ctx = UnwindContext::new();
    match fde.unwind_info_for_address(&section, &b, &mut ctx, addr).ok()?.register(Register(reg)) {
        Some(RegisterRule::Offset(o)) => Some(Saved::Offset(o)),
        Some(RegisterRule::Expression(_) | RegisterRule::ValExpression(_)) => Some(Saved::Expression),
        _ => Some(Saved::Otherwise),
    }
}

/// What the entry at an offset says of an address and a register.
pub(crate) fn row_at(frame: &'static [u8], bases: (u64, u64, u64), at: usize, addr: u64, reg: u16) -> (r: Option<
    Row,
>)
    ensures
        r == frame_row(frame@, bases, at as nat, addr, reg),
{
    match (cfa_at(frame, bases, at, addr), saved_at(frame, bases, at, addr, reg)) {
        (Some(cfa), Some(saved)) => Some(Row { cfa, saved }),
        _ => None,
    }
}

/// Whether neither the canonical address nor a register is told by an expression:
/// evaluating one need not come to an end.
pub open spec fn row_plain(row: Row) -> bool {
    row.cfa is Register && !(row.saved is Expression)
}

pub(crate) fn is_row_plain(row: Row) -> (b: bool)
    ensures
        b == row_plain(row),
{
    match (row.cfa, row.saved) {
        (Cfa::Expression, _) => false,
        (_, Saved::Expression) => false,
        _ => true,
    }
}

/// Whether the sum of two offsets is one.
pub open spec fn sum_fits(a: i64, b: Saved) -> bool {
    b matches Saved::Offset(b) ==> i64::MIN <= a + b <= i64::MAX
}

pub(crate) fn has_sum(a: i64, b: Saved) -> (r: bool)
    ensures
        r == sum_fits(a, b),
{
    match b {
        Saved::Offset(b) => a.checked_add(b).is_some(),
        _ => true,
    }
}

/// The numbers of the frame pointer, the stack pointer and the return address.
pub const RBP: u16 = 6;

pub const RSP: u16 = 7;

pub const RA: u16 = 16;

/// Whether an address is outside the first eight bytes of memory.
pub open spec fn clear_of_zero(v: u64, off: i64) -> bool {
    v + off < 0 || v + off >= 8
}

/// Whether call-frame information on the frame pointer can be acted on: offsets add
/// up, and the canonical address is told from a register and has a word below it.
pub open spec fn row_fine(row: Row, r: Raw) -> bool {
    &&& row_plain(row)
    &&& row.cfa matches Cfa::Register(n, off) ==> {
        &&& sum_fits(off, row.saved)
        &&& n == RBP ==> clear_of_zero(r.fp, off)
        &&& n == RSP ==> clear_of_zero(r.sp, off)
        &&& n == RA ==> clear_of_zero(r.pc, off)
    }
}

fn is_clear(v: u64, off: i64) -> (r: bool)
    ensures
        r == clear_of_zero(v, off),
{
    let sum: i128 = v as i128 + off as i128;
    sum < 0 || sum >= 8
}

fn is_row_fine(row: Row, r: Raw) -> (b: bool)
    ensures
        b == row_fine(row, r),
{
    match row.cfa {
        Cfa::Expression => false,
        Cfa::Register(n, off) => is_row_plain(row) && has_sum(off, row.saved) && (n != RBP || is_clear(r.fp, off)) && (n
            != RSP || is_clear(r.sp, off)) && (n != RA || is_clear(r.pc, off)),
    }
}

/// Whether what the call-frame information at an offset says can be acted on.
pub open spec fn rows_fine_at(frame: Seq<u8>, bases: (u64, u64, u64), at: nat, addr: u64, r: Raw) -> bool {
    &&& frame_row(frame, bases, at, addr, RBP) matches Some(row) ==> row_fine(row, r)
    &&& frame_row(frame, bases, at, addr, RA) matches Some(row) ==> row_plain(row)
}

/// Whether the search table of a section counts its entries in at most 32 bits without
/// a sign, or in no way at all.
pub open spec fn count_modest(hdr: Seq<u8>) -> bool {
    hdr.len() < 3 || hdr[2] == 2 || hdr[2] == 3 || hdr[2] >= 0x10
}

/// Where the search table in a section leads for an address, and where it says that
/// the call-frame information begins. The section and the code lie at `bases`.
pub uninterp spec fn table_entry(hdr: Seq<u8>, bases: (u64, u64), addr: u64) -> Option<(u64, u64)>;

/// `gimli::EhFrameHdr::parse`, `gimli::EhHdrTable::lookup` and
/// `gimli::ParsedEhFrameHdr::eh_frame_ptr`: the search in the table. `gimli`
/// multiplies the number of entries by their size, which must not overflow.
#[verifier::external_body]
fn look_up(hdr: &'static [u8], bases: (u64, u64), addr: u64) -> (r: Option<(u64, u64)>)
    requires
        count_modest(hdr@),
    ensures
        r == table_entry(hdr@, bases, addr),
{
    let b = BaseAddresses::default().set_eh_frame_hdr(bases.0).set_text(bases.1);
    let parsed = EhFrameHdr::new(hdr, LittleEndian).parse(&b, 8).ok()?;
    let to = parsed.table()?.lookup(addr, &b).ok()?.direct().ok()?;
    Some((to, parsed.eh_frame_ptr().direct().ok()?))
}

/// Whether a program is looked into for an address: it lies there, and not too far
/// from the base.
pub open spec fn looked_into(p: ProgramV, pc: u64) -> bool {
    &&& p.base <= pc <= p.base + u32::MAX
    &&& p.start <= pc
    &&& pc < p.end || pc == p.start
}

/// The bytes of a section that may be missing.
pub open spec fn data_in(s: Option<PieceV>) -> Option<Seq<u8>> {
    match s {
        Some(p) => p.data,
        None => None,
    }
}

/// Whether call-frame information wherever it may be looked for, without a table to
/// search, can be acted on.
pub open spec fn any_fine(frame: Seq<u8>, bases: (u64, u64, u64), addr: u64, r: Raw) -> bool {
    forall|at: nat| at < frame.len() ==> #[trigger] rows_fine_at(frame, bases, at, addr, r)
}

/// Whether call-frame information where the search table leads can be acted on.
pub open spec fn led_fine(frame: Seq<u8>, bases: (u64, u64, u64), hdr: Seq<u8>, start: u64, addr: u64, r: Raw) -> bool {
    &&& count_modest(hdr)
    &&& table_entry(hdr, (start, bases.1), addr) matches Some((to, begin)) ==> {
        &&& begin <= to
        &&& to - begin <= u32::MAX ==> rows_fine_at(frame, bases, (to - begin) as nat, addr, r)
    }
}

/// Whether what a program's call-frame information says of an address can be acted
/// on.
pub open spec fn rows_fine(p: ProgramV, r: Raw) -> bool {
    looked_into(p, r.pc) ==> match data_in(p.eh_frame) {
        Some(frame) => {
            let bases = (p.eh_frame->0.start, p.text.start, 0u64);
            let addr = (r.pc - p.base) as u64;
            match data_in(p.eh_frame_hdr) {
                Some(hdr) => led_fine(frame, bases, hdr, p.eh_frame_hdr->0.start, addr, r),
                None => any_fine(frame, bases, addr, r),
            }
        },
        None => true,
    }
}

/// Whether a frame can be unwound: there is a word below where the stack pointer
/// points, and call-frame information can be acted on.
pub open spec fn sound(p: ProgramV, r: Raw) -> bool {
    r.sp >= 8 && rows_fine(p, r)
}

/// Whether what the call-frame information at an offset says can be acted on.
fn is_fine_at(frame: &'static [u8], bases: (u64, u64, u64), at: usize, addr: u64, r: Raw) -> (b: bool)
    ensures
        b == rows_fine_at(frame@, bases, at as nat, addr, r),
{
    if let Some(row) = row_at(frame, bases, at, addr, RBP) {
        if !is_row_fine(row, r) {
            return false;
        }
    }
    if let Some(row) = row_at(frame, bases, at, addr, RA) {
        if !is_row_plain(row) {
            return false;
        }
    }
    true
}

fn is_any_fine(frame: &'static [u8], bases: (u64, u64, u64), addr: u64, r: Raw) -> (b: bool)
    ensures
        b == any_fine(frame@, bases, addr, r),
{
    let mut at: usize = 0;
    while at < frame.len()
        invariant
            at <= frame@.len(),
            forall|i: nat| i < at ==> #[trigger] rows_fine_at(frame@, bases, i, addr, r),
        decreases frame@.len() - at,
    {
        if !is_fine_at(frame, bases, at, addr, r) {
            assert(!rows_fine_at(frame@, bases, at as nat, addr, r));
            return false;
        }
        at = at + 1;
    }
    true
}

fn is_led_fine(
    frame: &'static [u8],
    bases: (u64, u64, u64),
    hdr: &'static [u8],
    start: u64,
    addr: u64,
    r: Raw,
) -> (b: bool)
    ensures
        b == led_fine(frame@, bases, hdr@, start, addr, r),
{
    if !(hdr.len() < 3 || hdr[2] == 2 || hdr[2] == 3 || hdr[2] >= 0x10) {
        return false;
    }
    match look_up(hdr, (start, bases.1), addr) {
        Some((to, begin)) => {
            if to < begin {
                false
            } else if to - begin <= 0xffff_ffff {
                is_fine_at(frame, bases, (to - begin) as usize, addr, r)
            } else {
                true
            }
        },
        None => true,
    }
}

fn is_sound(p: &Program, r: Raw) -> (b: bool)
    ensures
        b == sound(p@, r),
{
    if r.sp < 8 {
        return false;
    }
    if r.pc < p.base || r.pc - p.base > 0xffff_ffff || r.pc < p.start || (r.pc >= p.end && r.pc != p.start) {
        return true;
    }
    let addr: u64 = r.pc - p.base;
    match &p.eh_frame {
        None => true,
        Some(piece) => match piece.data {
            None => true,
            Some(frame) => {
                let bases: (u64, u64, u64) = (piece.start, p.text.start, 0);
                match &p.eh_frame_hdr {
                    None => is_any_fine(frame, bases, addr, r),
                    Some(table) => match table.data {
                        None => is_any_fine(frame, bases, addr, r),
                        Some(hdr) => is_led_fine(frame, bases, hdr, table.start, addr, r),
                    },
                }
            },
        },
    }
}

/// An unwinder, and the one program that it knows.
pub struct Unwinding {
    unwinder: UnwinderX86_64<&'static [u8], MayAllocateDuringUnwind>,
    program: Program,
}

impl Unwinding {
    /// The program.
    pub closed spec fn knows(&self) -> ProgramV {
        self.program@
    }

    #[verifier::type_invariant]
    spec fn knows_one(self) -> bool {
        programs_of(self.unwinder) == seq![self.program@]
    }
}

/// `framehop::Unwinder::unwind_frame`, with a new cache: unwinds the frame of
/// the running function. The result depends on the program, the registers and
/// the words that it is given alone. `framehop` looks at the word below where the
/// caller's stack pointer will point, adds the offsets that call-frame information
/// gives, and takes the beginning of that from where the search table leads, none of
/// which must overflow; what it evaluates an expression for need not come to an end.
#[verifier::external_body]
fn unwind_frame(
    u: &UnwinderX86_64<&'static [u8], MayAllocateDuringUnwind>,
    r: Raw,
    words: &mut StackWords,
) -> (got: Unwound)
    requires
        old(words).missing is None,
        programs_of(*u).len() == 1,
        sound(programs_of(*u)[0], r),
    ensures
        final(words).known == old(words).known,
        (got, final(words).missing) == unwound(
            programs_of(*u),
            r.pc,
            r.sp,
            r.fp,
            old(words).known@,
        ),
{
    let mut regs = UnwindRegsX86_64::new(r.pc, r.sp, r.fp);
    let mut cache = CacheX86_64::<_>::new();
    let at = FrameAddress::from_instruction_pointer(r.pc);
    match u.unwind_frame(at, &mut regs, &mut cache, &mut |addr| words.read(addr)) {
        Ok(Some(ret)) => Unwound::Frame { ret, sp: regs.sp(), fp: regs.bp() },
        Ok(None) => Unwound::Root,
        Err(_) => Unwound::Failed,
    }
}

/// A section's addresses and bytes; nothing where its end is beyond the last
/// address.
pub open spec fn piece_of(s: SectionV) -> Option<PieceV> {
    if s.address + s.size > u64::MAX {
        None
    } else {
        Some(PieceV { start: s.address, end: (s.address + s.size) as u64, data: s.data })
    }
}

pub(crate) fn piece(s: Section) -> (r: Option<Piece>)
    ensures
        piece_view(r) == piece_of(s@),
{
    match s.address.checked_add(s.size) {
        None => None,
        Some(end) => Some(Piece { start: s.address, end, data: s.data }),
    }
}

/// A section that may be missing. One whose end is beyond the last address
/// cannot be used.
pub open spec fn optional_piece(s: Option<SectionV>) -> Result<Option<PieceV>, ()> {
    match s {
        None => Ok(None),
        Some(s) => match piece_of(s) {
            None => Err(()),
            Some(p) => Ok(Some(p)),
        },
    }
}

/// The program in an object file that is loaded at a distance from its
/// link-time addresses. It needs a `.text` section; the link-time base is zero.
pub open spec fn program_of(bytes: Seq<u8>, slide: u64) -> Option<ProgramV> {
    match crate::load::object_named(bytes, ".text"@) {
        None => None,
        Some(text) => match (
            piece_of(text),
            optional_piece(crate::load::object_named(bytes, ".eh_frame"@)),
            optional_piece(crate::load::object_named(bytes, ".eh_frame_hdr"@)),
        ) {
            (Some(text), Ok(eh_frame), Ok(eh_frame_hdr)) => if text.end + slide > u64::MAX {
                None
            } else {
                Some(
                    ProgramV {
                        start: (text.start + slide) as u64,
                        end: (text.end + slide) as u64,
                        base: slide,
                        text,
                        eh_frame,
                        eh_frame_hdr,
                    },
                )
            },
            _ => None,
        },
    }
}

fn find_piece(i: &Image, name: &str) -> (r: Result<Option<Piece>, ()>)
    ensures
        match optional_piece(crate::load::object_named(crate::load::image_bytes(*i), name@)) {
            Ok(p) => r matches Ok(got) && piece_view(got) == p,
            Err(_) => r is Err,
        },
{
    match section_by_name(i, name) {
        None => Ok(None),
        Some(s) => match piece(s) {
            None => Err(()),
            Some(p) => Ok(Some(p)),
        },
    }
}

/// An unwinder for the program in an object file; nothing where the bytes are
/// no object file or lack what unwinding needs.
pub fn unwinder(bytes: &'static [u8], name: String, slide: u64) -> (r: Option<Unwinding>)
    ensures
        r is Some <==> crate::load::is_object(bytes@) && program_of(bytes@, slide) is Some,
        r matches Some(u) ==> u.knows() == program_of(bytes@, slide)->0,
{
    let image: Image = match parse_object(bytes) {
        None => {
            return None;
        },
        Some(image) => image,
    };
    let text: Piece = match section_by_name(&image, ".text") {
        None => {
            return None;
        },
        Some(s) => match piece(s) {
            None => {
                return None;
            },
            Some(p) => p,
        },
    };
    let eh_frame: Option<Piece> = match find_piece(&image, ".eh_frame") {
        Err(_) => {
            return None;
        },
        Ok(p) => p,
    };
    let eh_frame_hdr: Option<Piece> = match find_piece(&image, ".eh_frame_hdr") {
        Err(_) => {
            return None;
        },
        Ok(p) => p,
    };
    let end: u64 = match text.end.checked_add(slide) {
        None => {
            return None;
        },
        Some(end) => end,
    };
    let start: u64 = text.start + slide;
    let mut u: UnwinderX86_64<&'static [u8], MayAllocateDuringUnwind> = new_unwinder();
    let p = Program { name, start, end, base: slide, text, eh_frame, eh_frame_hdr };
    add_module(&mut u, &p);
    assert(programs_of(u) =~= seq![p@]);
    Some(Unwinding { unwinder: u, program: p })
}

/// What to do next to unwind a frame.
#[derive(Clone, Copy, PartialEq, Eq, Structural, Debug)]
pub enum Step {
    /// The caller is known.
    Done(Caller),
    /// The word at that address is needed.
    Read(u64),
    /// There is no caller, or it cannot be told.
    Stop,
}

/// What to do after an attempt to unwind: read the word that was missing, or
/// turn the return address into a link-time address.
pub open spec fn step_of(got: Unwound, missing: Option<u64>, slide: u64) -> Step {
    match missing {
        Some(addr) => Step::Read(addr),
        None => match got {
            Unwound::Frame { ret, sp, fp } => if ret < slide {
                Step::Stop
            } else {
                Step::Done(
                    Caller { static_pc: (ret - slide) as u64, caller_fp: fp, caller_sp: sp },
                )
            },
            _ => Step::Stop,
        },
    }
}

/// What to do after an attempt to unwind.
pub fn next_step(got: Unwound, missing: Option<u64>, slide: u64) -> (r: Step)
    ensures
        r == step_of(got, missing, slide),
{
    match missing {
        Some(addr) => Step::Read(addr),
        None => match got {
            Unwound::Frame { ret, sp, fp } => match ret.checked_sub(slide) {
                None => Step::Stop,
                Some(static_pc) => Step::Done(
                    Caller { static_pc, caller_fp: fp, caller_sp: sp },
                ),
            },
            _ => Step::Stop,
        },
    }
}

/// Unwinds one frame as far as the known words of the stack allow. A frame that
/// cannot be unwound has no caller that can be told.
pub fn unwind(u: &Unwinding, r: Raw, slide: u64, known: Vec<(u64, u64)>) -> (step: Step)
    ensures
        ({
            let (got, missing) = unwound(seq![u.knows()], r.pc, r.sp, r.fp, known@);
            step == if sound(u.knows(), r) {
                step_of(got, missing, slide)
            } else {
                Step::Stop
            }
        }),
{
    proof {
        use_type_invariant(u);
    }
    if !is_sound(&u.program, r) {
        return Step::Stop;
    }
    let mut words = StackWords { known, missing: None };
    let got: Unwound = unwind_frame(&u.unwinder, r, &mut words);
    next_step(got, words.missing, slide)
}

proof fn lemma_word_at(known: Seq<(u64, u64)>, addr: u64, k: nat)
    ensures
        match word_at(known, addr, k) {
            Some(w) => exists|i: int|
                k <= i < known.len() && #[trigger] known[i] == (addr, w) && forall|j: int|
                    k <= j < i ==> (#[trigger] known[j]).0 != addr,
            None => forall|j: int| k <= j < known.len() ==> (#[trigger] known[j]).0 != addr,
        },
    decreases known.len() - k,
{
    if k < known.len() {
        if known[k as int].0 == addr {
            assert(known[k as int] == (addr, known[k as int].1));
        } else {
            lemma_word_at(known, addr, k + 1);
            if let Some(w) = word_at(known, addr, k + 1) {
                let i = choose|i: int|
                    k + 1 <= i < known.len() && #[trigger] known[i] == (addr, w) && forall|j: int|
                        k + 1 <= j < i ==> (#[trigger] known[j]).0 != addr;
                assert(known[i] == (addr, w));
            }
        }
    }
}

/// A word of the stack that is known is the first that was given for its address.
pub proof fn law_known_word_is_the_first(known: Seq<(u64, u64)>, addr: u64)
    ensures
        match word_at(known, addr, 0) {
            Some(w) => exists|i: int|
                0 <= i < known.len() && #[trigger] known[i] == (addr, w) && forall|j: int|
                    0 <= j < i ==> (#[trigger] known[j]).0 != addr,
            None => forall|j: int| 0 <= j < known.len() ==> (#[trigger] known[j]).0 != addr,
        },
{
    lemma_word_at(known, addr, 0);
}

/// Whether a section that may be missing is taken over as it is.
pub open spec fn takes_over(s: Option<SectionV>, p: Option<PieceV>) -> bool {
    match (s, p) {
        (None, None) => true,
        (Some(s), Some(p)) => p.start == s.address && p.end == s.address + s.size && p.data == s.data,
        _ => false,
    }
}

/// A loaded program lies where its code was moved to: an address is one of its code at
/// link time just where the moved address is one at run time. Its sections are those of
/// the object file, at their link-time addresses. There is one wherever there is a
/// `.text` section and no address is beyond the last.
pub proof fn law_program_lies_where_it_was_moved(bytes: Seq<u8>, slide: u64, a: u64)
    ensures
        match program_of(bytes, slide) {
            Some(p) => {
                &&& crate::load::object_named(bytes, ".text"@) matches Some(text) && p.text.start == text.address
                    && p.text.end == text.address + text.size && p.text.data == text.data && (text.address <= a
                    < text.address + text.size <==> p.start <= a + slide < p.end) && p.start == text.address + slide
                    && p.end - p.start == text.size
                &&& p.base == slide
                &&& takes_over(crate::load::object_named(bytes, ".eh_frame"@), p.eh_frame)
                &&& takes_over(crate::load::object_named(bytes, ".eh_frame_hdr"@), p.eh_frame_hdr)
            },
            None => {
                ||| crate::load::object_named(bytes, ".text"@) is None
                ||| crate::load::object_named(bytes, ".text"@) matches Some(s) && s.address + s.size + slide > u64::MAX
                ||| crate::load::object_named(bytes, ".eh_frame"@) matches Some(s) && s.address + s.size > u64::MAX
                ||| crate::load::object_named(bytes, ".eh_frame_hdr"@) matches Some(s) && s.address + s.size > u64::MAX
            },
        },
{
}

/// An attempt to unwind leads on in one of three ways. The caller's address and the
/// distance by which the program was moved add up to the return address; its registers
/// are those that were recovered. A word that was missing is asked for.
pub proof fn law_attempt_leads_on(got: Unwound, missing: Option<u64>, slide: u64)
    ensures
        match step_of(got, missing, slide) {
            Step::Done(c) => missing is None && got == (Unwound::Frame {
                ret: (c.static_pc + slide) as u64,
                sp: c.caller_sp,
                fp: c.caller_fp,
            }) && c.static_pc + slide <= u64::MAX,
            Step::Read(a) => missing == Some(a),
            Step::Stop => missing is None && (got matches Unwound::Frame { ret, sp, fp } ==> ret < slide),
        },
{
}

} // verus!
