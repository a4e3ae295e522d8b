//! Unwinding one frame of an AArch64 program in a Mach-O file: like
//! [`crate::unwind`], with a link register, and with the sections that such a
//! program has for its call frames.
use crate::load::{parse_object, section_by_name, segment_by_name, Image};
use crate::text::str_eq;
use crate::unwind::{
    has_sum, is_row_plain, next_step, piece, row_at, Cfa, Piece, PieceV, Row, StackWords, Step, Unwound,
};
use core::ops::Range;
use framehop::aarch64::{CacheAarch64, UnwindRegsAarch64, UnwinderAarch64};
use framehop::{ExplicitModuleSectionInfo, FrameAddress, MayAllocateDuringUnwind, Module, Unwinder};
use vstd::prelude::*;

verus! {

/// The registers of the function that was called.
#[derive(Clone, Copy, PartialEq, Eq, Structural, Debug)]
pub struct Raw {
    pub pc: u64,
    pub sp: u64,
    pub fp: u64,
    /// The link register.
    pub lr: u64,
}

/// A loaded program: where it lies, and the sections that unwinding needs.
pub struct Program {
    pub name: String,
    /// Where it lies in memory.
    pub avma: Range<u64>,
    pub base_avma: u64,
    /// Its link-time base.
    pub base_svma: u64,
    /// The segment of its code.
    pub segment_svma: Range<u64>,
    pub segment: Option<&'static [u8]>,
    pub text_svma: Option<Range<u64>>,
    pub text: Option<&'static [u8]>,
    pub stubs_svma: Option<Range<u64>>,
    pub stub_helper_svma: Option<Range<u64>>,
    pub got_svma: Option<Range<u64>>,
    pub unwind_info: Option<&'static [u8]>,
    pub eh_frame_svma: Option<Range<u64>>,
    pub eh_frame: Option<&'static [u8]>,
}

/// What a [`Program`] says, but for its name, which plays no part.
pub struct ProgramV {
    pub avma: (u64, u64),
    pub base_avma: u64,
    pub base_svma: u64,
    pub segment_svma: (u64, u64),
    pub segment: Option<Seq<u8>>,
    pub text_svma: Option<(u64, u64)>,
    pub text: Option<Seq<u8>>,
    pub stubs_svma: Option<(u64, u64)>,
    pub stub_helper_svma: Option<(u64, u64)>,
    pub got_svma: Option<(u64, u64)>,
    pub unwind_info: Option<Seq<u8>>,
    pub eh_frame_svma: Option<(u64, u64)>,
    pub eh_frame: Option<Seq<u8>>,
}

/// What an optional range says.
pub open spec fn range_view(r: Option<Range<u64>>) -> Option<(u64, u64)> {
    match r {
        Some(r) => Some((r.start, r.end)),
        None => None,
    }
}

/// What optional bytes say.
pub open spec fn bytes_view(b: Option<&'static [u8]>) -> Option<Seq<u8>> {
    match b {
        Some(b) => Some(b@),
        None => None,
    }
}

impl View for Program {
    type V = ProgramV;

    open spec fn view(&self) -> ProgramV {
        ProgramV {
            avma: (self.avma.start, self.avma.end),
            base_avma: self.base_avma,
            base_svma: self.base_svma,
            segment_svma: (self.segment_svma.start, self.segment_svma.end),
            segment: bytes_view(self.segment),
            text_svma: range_view(self.text_svma),
            text: bytes_view(self.text),
            stubs_svma: range_view(self.stubs_svma),
            stub_helper_svma: range_view(self.stub_helper_svma),
            got_svma: range_view(self.got_svma),
            unwind_info: bytes_view(self.unwind_info),
            eh_frame_svma: range_view(self.eh_frame_svma),
            eh_frame: bytes_view(self.eh_frame),
        }
    }
}

/// `framehop::aarch64::UnwinderAarch64`: a collection of modules.
#[verifier::external_type_specification]
#[verifier::external_body]
#[verifier::reject_recursive_types(D)]
#[verifier::reject_recursive_types(P)]
pub struct ExUnwinderAarch64<D, P>(framehop::aarch64::UnwinderAarch64<D, P>);

/// The programs that an unwinder knows, in the order in which they were added.
pub uninterp spec fn programs_of(
    u: UnwinderAarch64<&'static [u8], MayAllocateDuringUnwind>,
) -> Seq<ProgramV>;

/// What `framehop` makes of a frame, given the programs, the registers and the
/// words of the stack that are known; and the first address that it asked for
/// among those that are not.
pub uninterp spec fn unwound(
    programs: Seq<ProgramV>,
    pc: u64,
    sp: u64,
    fp: u64,
    lr: u64,
    known: Seq<(u64, u64)>,
) -> (Unwound, Option<u64>);

/// `framehop::aarch64::UnwinderAarch64::new`: an unwinder that knows no program.
#[verifier::external_body]
fn new_unwinder() -> (u: UnwinderAarch64<&'static [u8], MayAllocateDuringUnwind>)
    ensures
        programs_of(u) == Seq::<ProgramV>::empty(),
{
    UnwinderAarch64::new()
}

/// `framehop::Unwinder::add_module`: makes a program known, described by its
/// address range, its base address and the addresses and bytes of its sections.
#[verifier::external_body]
fn add_module(u: &mut UnwinderAarch64<&'static [u8], MayAllocateDuringUnwind>, p: &Program)
    ensures
        programs_of(*final(u)) == programs_of(*old(u)).push(p@),
{
    let info = ExplicitModuleSectionInfo {
        base_svma: p.base_svma,
        text_segment_svma: Some(p.segment_svma.clone()),
        text_segment: p.segment,
        text_svma: p.text_svma.clone(),
        text: p.text,
        stubs_svma: p.stubs_svma.clone(),
        stub_helper_svma: p.stub_helper_svma.clone(),
        got_svma: p.got_svma.clone(),
        unwind_info: p.unwind_info,
        eh_frame_svma: p.eh_frame_svma.clone(),
        eh_frame: p.eh_frame,
        ..Default::default()
    };
    u.add_module(Module::new(p.name.clone(), p.avma.clone(), p.base_avma, info));
}

/// The numbers of the frame pointer and the link register.
pub const X29: u16 = 29;

pub const X30: u16 = 30;

/// Whether call-frame information can be acted on: offsets add up, and nothing is told
/// by an expression.
pub open spec fn row_fine(row: Row) -> bool {
    &&& crate::unwind::row_plain(row)
    &&& row.cfa matches Cfa::Register(_, off) ==> crate::unwind::sum_fits(off, row.saved)
}

/// Where a section that may be missing starts.
pub open spec fn start_or_zero(r: Option<(u64, u64)>) -> u64 {
    match r {
        Some(r) => r.0,
        None => 0,
    }
}

fn start_of(r: &Option<Range<u64>>) -> (n: u64)
    ensures
        n == start_or_zero(range_view(*r)),
{
    match r {
        Some(r) => r.start,
        None => 0,
    }
}

/// Whether a program is looked into for an address: it lies there, and not too far
/// from the base.
pub open spec fn looked_into(p: ProgramV, pc: u64) -> bool {
    &&& p.base_avma <= pc <= p.base_avma + u32::MAX
    &&& p.avma.0 <= pc
    &&& pc < p.avma.1 || pc == p.avma.0
}

/// Whether whatever a program's call-frame information says of an address and a
/// register can be acted on.
pub open spec fn rows_fine_for(p: ProgramV, r: Raw, reg: u16) -> bool {
    match p.eh_frame {
        Some(frame) => !looked_into(p, r.pc) || r.pc - p.base_avma + p.base_svma > u64::MAX || forall|at: nat|
            at < frame.len() ==> (#[trigger] crate::unwind::frame_row(
                frame,
                (start_or_zero(p.eh_frame_svma), start_or_zero(p.text_svma), start_or_zero(p.got_svma)),
                at,
                (r.pc - p.base_avma + p.base_svma) as u64,
                reg,
            ) matches Some(row) ==> row_fine(row)),
        None => true,
    }
}

/// Whether what it says of an address, of the frame pointer and the link register,
/// can be acted on.
pub open spec fn rows_fine(p: ProgramV, r: Raw) -> bool {
    rows_fine_for(p, r, X29) && rows_fine_for(p, r, X30)
}

#[verifier::loop_isolation(false)]
fn are_rows_fine(p: &Program, r: Raw, reg: u16) -> (b: bool)
    ensures
        b == rows_fine_for(p@, r, reg),
{
    let frame: &'static [u8] = match p.eh_frame {
        Some(frame) => frame,
        None => {
            return true;
        },
    };
    if r.pc < p.base_avma || r.pc - p.base_avma > 0xffff_ffff || r.pc < p.avma.start || (r.pc >= p.avma.end && r.pc
        != p.avma.start) {
        return true;
    }
    let addr: u64 = match (r.pc - p.base_avma).checked_add(p.base_svma) {
        Some(addr) => addr,
        None => {
            return true;
        },
    };
    let bases: (u64, u64, u64) = (start_of(&p.eh_frame_svma), start_of(&p.text_svma), start_of(&p.got_svma));
    let mut at: usize = 0;
    while at < frame.len()
        invariant
            at <= frame@.len(),
            forall|i: nat|
                i < at ==> (#[trigger] crate::unwind::frame_row(frame@, bases, i, addr, reg) matches Some(row)
                    ==> row_fine(row)),
        decreases frame@.len() - at,
    {
        if let Some(row) = row_at(frame, bases, at, addr, reg) {
            assert(crate::unwind::frame_row(frame@, bases, at as nat, addr, reg) == Some(row));
            if !is_row_plain(row) {
                return false;
            }
            if let Cfa::Register(_, off) = row.cfa {
                if !has_sum(off, row.saved) {
                    return false;
                }
            }
        }
        at = at + 1;
    }
    true
}

/// Whether the addresses in a program lie where its base allows: no stubs before it,
/// and the base so that 32 bits can be added to it; whether what its compact unwind
/// table says can be looked up; and whether what its code does to the stack pointer
/// adds up.
pub open spec fn placed(p: ProgramV) -> bool {
    &&& p.base_svma <= u64::MAX - u32::MAX
    &&& p.stubs_svma matches Some(s) ==> p.base_svma <= s.0 <= s.1
    &&& p.stub_helper_svma matches Some(s) ==> p.base_svma <= s.0 <= s.1
    &&& p.unwind_info matches Some(d) ==> crate::compact::kept(d)
    &&& p.segment matches Some(d) ==> crate::adjust::calm(d)
    &&& p.text matches Some(d) ==> crate::adjust::calm(d)
}

fn lies_after(r: &Option<Range<u64>>, base: u64) -> (b: bool)
    ensures
        b == (range_view(*r) matches Some(s) ==> base <= s.0 <= s.1),
{
    match r {
        Some(r) => base <= r.start && r.start <= r.end,
        None => true,
    }
}

fn is_code_calm(d: Option<&'static [u8]>) -> (b: bool)
    ensures
        b == (bytes_view(d) matches Some(d) ==> crate::adjust::calm(d)),
{
    match d {
        Some(d) => crate::adjust::is_calm(d),
        None => true,
    }
}

fn is_placed(p: &Program) -> (b: bool)
    ensures
        b == placed(p@),
{
    let kept: bool = match p.unwind_info {
        Some(d) => crate::compact::is_kept(d),
        None => true,
    };
    p.base_svma <= 0xffff_ffff_0000_0000 && lies_after(&p.stubs_svma, p.base_svma) && lies_after(
        &p.stub_helper_svma,
        p.base_svma,
    ) && kept && is_code_calm(p.segment) && is_code_calm(p.text)
}

/// An unwinder, the one program that it knows, and whether frames in it can be
/// unwound.
pub struct Unwinding {
    unwinder: UnwinderAarch64<&'static [u8], MayAllocateDuringUnwind>,
    program: Program,
    placed: bool,
}

impl Unwinding {
    /// The program.
    pub closed spec fn knows(&self) -> ProgramV {
        self.program@
    }

    #[verifier::type_invariant]
    spec fn knows_one(self) -> bool {
        programs_of(self.unwinder) == seq![self.program@] && self.placed == placed(self.program@)
    }
}

/// `framehop::Unwinder::unwind_frame`, with a new cache: unwinds the frame of
/// the running function. The result depends on the program, the registers and
/// the words that it is given alone. `framehop` takes the base from the addresses
/// of sections, adds 32 bits to it, adds the offsets that call-frame information
/// gives, and adds up in 32 bits how far the instructions round the running one move
/// the stack pointer, none of which must overflow; what it evaluates an expression for
/// need not come to an end.
#[verifier::external_body]
fn unwind_frame(
    u: &UnwinderAarch64<&'static [u8], MayAllocateDuringUnwind>,
    r: Raw,
    words: &mut StackWords,
) -> (got: Unwound)
    requires
        old(words).missing is None,
        programs_of(*u).len() == 1,
        placed(programs_of(*u)[0]),
        rows_fine(programs_of(*u)[0], r),
    ensures
        final(words).known == old(words).known,
        (got, final(words).missing) == unwound(
            programs_of(*u),
            r.pc,
            r.sp,
            r.fp,
            r.lr,
            old(words).known@,
        ),
{
    let mut regs = UnwindRegsAarch64::new(r.lr, r.sp, r.fp);
    let mut cache = CacheAarch64::<_>::new();
    let at = FrameAddress::from_instruction_pointer(r.pc);
    match u.unwind_frame(at, &mut regs, &mut cache, &mut |addr| words.read(addr)) {
        Ok(Some(ret)) => Unwound::Frame { ret, sp: regs.sp(), fp: regs.fp() },
        Ok(None) => Unwound::Root,
        Err(_) => Unwound::Failed,
    }
}

/// The addresses of a section that may be missing.
pub open spec fn range_in(s: Option<PieceV>) -> Option<(u64, u64)> {
    match s {
        Some(p) => Some((p.start, p.end)),
        None => None,
    }
}

fn range_of(p: &Option<Piece>) -> (r: Option<Range<u64>>)
    ensures
        range_view(r) == range_in(crate::unwind::piece_view(*p)),
{
    match p {
        Some(p) => Some(Range { start: p.start, end: p.end }),
        None => None,
    }
}

fn data_of(p: &Option<Piece>) -> (r: Option<&'static [u8]>)
    ensures
        bytes_view(r) == crate::unwind::data_in(crate::unwind::piece_view(*p)),
{
    match p {
        Some(p) => p.data,
        None => None,
    }
}

/// A section of an object file; nothing where there is none, and an error where its
/// end is beyond the last address.
pub open spec fn section_of(bytes: Seq<u8>, name: Seq<char>) -> Result<Option<PieceV>, ()> {
    crate::unwind::optional_piece(crate::load::object_named(bytes, name))
}

/// The program in an object file that is loaded at a distance from its link-time
/// addresses. It needs a `__TEXT` segment, where it begins.
pub open spec fn program_of(bytes: Seq<u8>, slide: u64) -> Option<ProgramV> {
    match crate::load::segment_named(bytes, "__TEXT"@) {
        None => None,
        Some(s) => match (
            crate::unwind::piece_of(s),
            section_of(bytes, "__text"@),
            section_of(bytes, "__stubs"@),
            section_of(bytes, "__stub_helper"@),
            section_of(bytes, "__got"@),
            section_of(bytes, "__unwind_info"@),
            section_of(bytes, "__eh_frame"@),
        ) {
            (Some(seg), Ok(text), Ok(stubs), Ok(helper), Ok(got), Ok(info), Ok(eh)) => if seg.end + slide
                > u64::MAX {
                None
            } else {
                Some(
                    ProgramV {
                        avma: ((seg.start + slide) as u64, (seg.end + slide) as u64),
                        base_avma: (seg.start + slide) as u64,
                        base_svma: seg.start,
                        segment_svma: (seg.start, seg.end),
                        segment: seg.data,
                        text_svma: range_in(text),
                        text: crate::unwind::data_in(text),
                        stubs_svma: range_in(stubs),
                        stub_helper_svma: range_in(helper),
                        got_svma: range_in(got),
                        unwind_info: crate::unwind::data_in(info),
                        eh_frame_svma: range_in(eh),
                        eh_frame: crate::unwind::data_in(eh),
                    },
                )
            },
            _ => None,
        },
    }
}

fn find_piece(i: &Image, name: &str) -> (r: Result<Option<Piece>, ()>)
    ensures
        match section_of(crate::load::image_bytes(*i), name@) {
            Ok(p) => r matches Ok(got) && crate::unwind::piece_view(got) == p,
            Err(_) => r is Err,
        },
{
    match section_by_name(i, name) {
        None => Ok(None),
        Some(s) => match piece(s) {
            None => Err(()),
            Some(p) => Ok(Some(p)),
        },
    }
}

/// The program in an object file.
fn read_program(image: &Image, name: String, slide: u64) -> (r: Option<Program>)
    ensures
        match program_of(crate::load::image_bytes(*image), slide) {
            Some(p) => r matches Some(got) && got@ == p,
            None => r is None,
        },
{
    let seg: Piece = match segment_by_name(image, "__TEXT") {
        None => {
            return None;
        },
        Some(s) => match piece(s) {
            None => {
                return None;
            },
            Some(p) => p,
        },
    };
    let end: u64 = match seg.end.checked_add(slide) {
        None => {
            return None;
        },
        Some(end) => end,
    };
    match (
        find_piece(image, "__text"),
        find_piece(image, "__stubs"),
        find_piece(image, "__stub_helper"),
        find_piece(image, "__got"),
        find_piece(image, "__unwind_info"),
        find_piece(image, "__eh_frame"),
    ) {
        (Ok(text), Ok(stubs), Ok(helper), Ok(got), Ok(info), Ok(eh)) => {
            let start: u64 = seg.start + slide;
            Some(
                Program {
                    name,
                    avma: Range { start, end },
                    base_avma: start,
                    base_svma: seg.start,
                    segment_svma: Range { start: seg.start, end: seg.end },
                    segment: seg.data,
                    text_svma: range_of(&text),
                    text: data_of(&text),
                    stubs_svma: range_of(&stubs),
                    stub_helper_svma: range_of(&helper),
                    got_svma: range_of(&got),
                    unwind_info: data_of(&info),
                    eh_frame_svma: range_of(&eh),
                    eh_frame: data_of(&eh),
                },
            )
        },
        _ => None,
    }
}

/// An unwinder for the program in an object file; nothing where the bytes are
/// no object file or lack what unwinding needs.
pub fn unwinder(bytes: &'static [u8], name: String, slide: u64) -> (r: Option<Unwinding>)
    ensures
        r is Some <==> crate::load::is_object(bytes@) && program_of(bytes@, slide) is Some,
        r matches Some(u) ==> u.knows() == program_of(bytes@, slide)->0,
{
    let image: Image = match parse_object(bytes) {
        None => {
            return None;
        },
        Some(image) => image,
    };
    match read_program(&image, name, slide) {
        None => None,
        Some(p) => {
            let mut u: UnwinderAarch64<&'static [u8], MayAllocateDuringUnwind> = new_unwinder();
            add_module(&mut u, &p);
            assert(programs_of(u) =~= seq![p@]);
            let placed: bool = is_placed(&p);
            Some(Unwinding { unwinder: u, program: p, placed })
        },
    }
}

/// Unwinds one frame as far as the known words of the stack allow. A frame in a program
/// that lies oddly, or whose call-frame information cannot be acted on, has no caller
/// that can be told.
pub fn unwind(u: &Unwinding, r: Raw, slide: u64, known: Vec<(u64, u64)>) -> (step: Step)
    ensures
        ({
            let (got, missing) = unwound(seq![u.knows()], r.pc, r.sp, r.fp, r.lr, known@);
            step == if placed(u.knows()) && rows_fine(u.knows(), r) {
                crate::unwind::step_of(got, missing, slide)
            } else {
                Step::Stop
            }
        }),
{
    proof {
        use_type_invariant(u);
    }
    if !u.placed || !are_rows_fine(&u.program, r, X29) || !are_rows_fine(&u.program, r, X30) {
        return Step::Stop;
    }
    let mut words = StackWords { known, missing: None };
    let got: Unwound = unwind_frame(&u.unwinder, r, &mut words);
    next_step(got, words.missing, slide)
}

/// The position of the first image of that path, from the `k`th on.
pub open spec fn image_from(images: Seq<(String, u64)>, path: Seq<char>, k: nat) -> Option<nat>
    decreases images.len() - k,
{
    if k >= images.len() {
        None
    } else if images[k as int].0@ == path {
        Some(k)
    } else {
        image_from(images, path, k + 1)
    }
}

/// The distance between link-time and run-time addresses: that of the first loaded
/// image with the program's path, or else of the first image.
pub open spec fn slide_of(images: Seq<(String, u64)>, path: Seq<char>) -> u64 {
    match image_from(images, path, 0) {
        Some(k) => images[k as int].1,
        None => if images.len() > 0 {
            images[0].1
        } else {
            0
        },
    }
}

/// Finds the distance between link-time and run-time addresses.
pub fn image_slide(images: &Vec<(String, u64)>, path: &str) -> (r: u64)
    ensures
        r == slide_of(images@, path@),
{
    let mut k: usize = 0;
    while k < images.len()
        invariant
            k <= images@.len(),
            image_from(images@, path@, 0) == image_from(images@, path@, k as nat),
        decreases images@.len() - k,
    {
        if str_eq(images[k].0.as_str(), path) {
            return images[k].1;
        }
        k = k + 1;
    }
    if images.len() > 0 {
        images[0].1
    } else {
        0
    }
}

proof fn lemma_image_from(images: Seq<(String, u64)>, path: Seq<char>, k: nat)
    ensures
        match image_from(images, path, k) {
            Some(i) => k <= i < images.len() && images[i as int].0@ == path && forall|j: int|
                k <= j < i ==> (#[trigger] images[j]).0@ != path,
            None => forall|j: int| k <= j < images.len() ==> (#[trigger] images[j]).0@ != path,
        },
    decreases images.len() - k,
{
    if k < images.len() && images[k as int].0@ != path {
        lemma_image_from(images, path, k + 1);
    }
}

/// The distance is that of the first image with the program's path; of the first image
/// of all where none has it.
pub proof fn law_slide_is_the_programs(images: Seq<(String, u64)>, path: Seq<char>)
    ensures
        (exists|i: int|
            0 <= i < images.len() && (#[trigger] images[i]).0@ == path && images[i].1 == slide_of(images, path)
                && forall|j: int| 0 <= j < i ==> (#[trigger] images[j]).0@ != path) || ((forall|j: int|
            0 <= j < images.len() ==> (#[trigger] images[j]).0@ != path) && (images.len() > 0 ==> slide_of(images, path)
            == images[0].1) && (images.len() == 0 ==> slide_of(images, path) == 0)),
{
    lemma_image_from(images, path, 0);
    if let Some(i) = image_from(images, path, 0) {
        assert(images[i as int].0@ == path);
    }
}

/// Whether a section that may be missing is told of by its addresses.
pub open spec fn told(s: Option<crate::load::SectionV>, range: Option<(u64, u64)>) -> bool {
    match (s, range) {
        (None, None) => true,
        (Some(s), Some((from, to))) => from == s.address && to == s.address + s.size,
        _ => false,
    }
}

/// The bytes of a section that may be missing.
pub open spec fn bytes_in(s: Option<crate::load::SectionV>) -> Option<Seq<u8>> {
    match s {
        Some(s) => s.data,
        None => None,
    }
}

/// A loaded program lies where its `__TEXT` segment was moved to: an address is in the
/// segment at link time just where the moved address is in the program at run time. Its
/// sections are those of the object file, each by its own name.
pub proof fn law_program_lies_where_it_was_moved(bytes: Seq<u8>, slide: u64, a: u64)
    ensures
        program_of(bytes, slide) matches Some(p) ==> {
            &&& crate::load::segment_named(bytes, "__TEXT"@) matches Some(s) && p.segment_svma.0 == s.address
                && p.segment_svma.1 == s.address + s.size && p.segment == s.data && p.base_svma == s.address
                && p.base_avma == s.address + slide && p.avma.0 == s.address + slide && p.avma.1 - p.avma.0 == s.size
                && (s.address <= a < s.address + s.size <==> p.avma.0 <= a + slide < p.avma.1)
            &&& told(crate::load::object_named(bytes, "__text"@), p.text_svma)
            &&& p.text == bytes_in(crate::load::object_named(bytes, "__text"@))
            &&& told(crate::load::object_named(bytes, "__stubs"@), p.stubs_svma)
            &&& told(crate::load::object_named(bytes, "__stub_helper"@), p.stub_helper_svma)
            &&& told(crate::load::object_named(bytes, "__got"@), p.got_svma)
            &&& p.unwind_info == bytes_in(crate::load::object_named(bytes, "__unwind_info"@))
            &&& told(crate::load::object_named(bytes, "__eh_frame"@), p.eh_frame_svma)
            &&& p.eh_frame == bytes_in(crate::load::object_named(bytes, "__eh_frame"@))
        },
{
}

} // verus!
