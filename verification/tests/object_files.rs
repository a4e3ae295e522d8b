//! Object files and their debugging information, byte by byte.
use bilbo::adjust::is_calm;
use bilbo::compact::is_kept;
use bilbo::darwin;
use bilbo::die::{Attr, Location, Name, Ranges, AT_BYTE_SIZE, AT_ENCODING, AT_FRAME_BASE, AT_TYPE, TAG_BASE_TYPE};
use bilbo::frame::{Caller, Raw};
use bilbo::load::{read_units, store, LoadError};
use bilbo::unwind::{unwind, unwinder, Step};

fn leak(bytes: Vec<u8>) -> &'static [u8] {
    Box::leak(bytes.into_boxed_slice())
}

/// `.debug_abbrev`: a unit, a base type, a subprogram, and a variable in it.
fn abbrev() -> Vec<u8> {
    let mut b = Vec::new();
    // 1: a compile unit with children, and no attributes.
    b.extend_from_slice(&[1, 0x11, 1, 0, 0]);
    // 2: a base type with a name, a size and an encoding.
    b.extend_from_slice(&[2, 0x24, 0, 0x03, 0x08, 0x0b, 0x0b, 0x3e, 0x0b, 0, 0]);
    // 3: a subprogram with a name, its code and its frame base.
    b.extend_from_slice(&[3, 0x2e, 1, 0x03, 0x08, 0x11, 0x01, 0x12, 0x06, 0x40, 0x18, 0, 0]);
    // 4: a variable with a name, a type and a location.
    b.extend_from_slice(&[4, 0x34, 0, 0x03, 0x08, 0x49, 0x13, 0x02, 0x18, 0, 0]);
    b.push(0);
    b
}

/// `.debug_info`: one unit of DWARF 4.
fn info() -> Vec<u8> {
    let mut body = Vec::new();
    body.extend_from_slice(&4u16.to_le_bytes());
    body.extend_from_slice(&0u32.to_le_bytes());
    body.push(8);
    body.push(1);
    // At offset 12.
    body.push(2);
    body.extend_from_slice(b"u16\0");
    body.extend_from_slice(&[2, 7]);
    body.push(3);
    body.extend_from_slice(b"main\0");
    body.extend_from_slice(&0x1000u64.to_le_bytes());
    body.extend_from_slice(&0x100u32.to_le_bytes());
    body.extend_from_slice(&[1, 0x56]);
    body.push(4);
    body.extend_from_slice(b"port\0");
    body.extend_from_slice(&12u32.to_le_bytes());
    body.extend_from_slice(&[2, 0x91, 0x68]);
    body.push(0);
    body.push(0);
    let mut b = (body.len() as u32).to_le_bytes().to_vec();
    b.extend_from_slice(&body);
    b
}

/// An x86-64 ELF file with those sections, each at an address.
fn elf(sections: &[(&str, u64, Vec<u8>)]) -> Vec<u8> {
    let mut names = vec![0u8];
    let mut file = vec![0u8; 64];
    let mut headers = vec![0u8; 64];
    let mut header = |name: u32, kind: u32, addr: u64, off: u64, size: u64| {
        headers.extend_from_slice(&name.to_le_bytes());
        headers.extend_from_slice(&kind.to_le_bytes());
        headers.extend_from_slice(&0u64.to_le_bytes());
        headers.extend_from_slice(&addr.to_le_bytes());
        headers.extend_from_slice(&off.to_le_bytes());
        headers.extend_from_slice(&size.to_le_bytes());
        headers.extend_from_slice(&[0; 8]);
        headers.extend_from_slice(&1u64.to_le_bytes());
        headers.extend_from_slice(&0u64.to_le_bytes());
    };
    for (name, addr, data) in sections {
        let at = names.len() as u32;
        names.extend_from_slice(name.as_bytes());
        names.push(0);
        header(at, 1, *addr, file.len() as u64, data.len() as u64);
        file.extend_from_slice(data);
    }
    let at = names.len() as u32;
    names.extend_from_slice(b".shstrtab\0");
    header(at, 3, 0, file.len() as u64, names.len() as u64);
    file.extend_from_slice(&names);
    while file.len() % 8 != 0 {
        file.push(0);
    }
    let table = file.len() as u64;
    file.extend_from_slice(&headers);
    let count = sections.len() as u16 + 2;
    file[..7].copy_from_slice(&[0x7f, b'E', b'L', b'F', 2, 1, 1]);
    file[16..18].copy_from_slice(&3u16.to_le_bytes());
    file[18..20].copy_from_slice(&62u16.to_le_bytes());
    file[20..24].copy_from_slice(&1u32.to_le_bytes());
    file[40..48].copy_from_slice(&table.to_le_bytes());
    file[52..54].copy_from_slice(&64u16.to_le_bytes());
    file[58..60].copy_from_slice(&64u16.to_le_bytes());
    file[60..62].copy_from_slice(&count.to_le_bytes());
    file[62..64].copy_from_slice(&(count - 1).to_le_bytes());
    file
}

#[test]
fn a_unit_is_read_entry_by_entry() {
    let table = vec![
        (".debug_info".to_string(), leak(info())),
        (".debug_abbrev".to_string(), leak(abbrev())),
    ];
    let units = read_units(&table, true).unwrap();
    assert_eq!(units.len(), 1);
    assert!(units[0].complete());
    let es = units[0].entries();
    assert_eq!(es.iter().map(|e| e.depth).collect::<Vec<_>>(), [0, 1, 1, 2]);
    assert_eq!(es[1].offset, 12);
    assert_eq!(es[1].tag, TAG_BASE_TYPE);
    assert!(matches!(&es[1].name, Name::Text(n) if n == "u16"));
    let attr = |k: usize, at: u16| es[k].attrs.iter().find(|a| a.0 == at).map(|a| &a.1);
    assert!(matches!(attr(1, AT_BYTE_SIZE), Some(Attr::Udata(2))));
    assert!(matches!(attr(1, AT_ENCODING), Some(Attr::Encoding(7))));
    assert!(matches!(&es[2].ranges, Ranges::All(r) if r == &vec![(0x1000, 0x1100)]));
    assert!(matches!(attr(2, AT_FRAME_BASE), Some(Attr::Exprloc(b)) if b == &vec![0x56]));
    assert!(matches!(attr(3, AT_TYPE), Some(Attr::UnitRef(12))));
    assert!(matches!(&es[3].location, Location::Expr(b) if b == &vec![0x91, 0x68]));
}

/// A unit of DWARF 5 with a subprogram in it, of those attributes.
fn unit_with(attrs: &[(u8, u8)], values: &[u8]) -> Vec<(String, &'static [u8])> {
    let mut abbrev = vec![1, 0x11, 1, 0, 0, 2, 0x2e, 0];
    for (at, form) in attrs {
        abbrev.extend_from_slice(&[*at, *form]);
    }
    abbrev.extend_from_slice(&[0, 0, 0]);
    let mut body = Vec::new();
    body.extend_from_slice(&5u16.to_le_bytes());
    body.extend_from_slice(&[1, 8]);
    body.extend_from_slice(&0u32.to_le_bytes());
    body.push(1);
    body.push(2);
    body.extend_from_slice(values);
    body.push(0);
    let mut info = (body.len() as u32).to_le_bytes().to_vec();
    info.extend_from_slice(&body);
    vec![
        (".debug_info".to_string(), leak(info)),
        (".debug_abbrev".to_string(), leak(abbrev)),
        (".debug_addr".to_string(), leak(0x3000u64.to_le_bytes().to_vec())),
    ]
}

#[test]
fn addresses_without_a_place_are_not_followed() {
    let ranges = |attrs: &[(u8, u8)], values: &[u8]| {
        let units = read_units(&unit_with(attrs, values), true).unwrap();
        format!("{:?}", units[0].entries()[1].ranges)
    };
    // By number: the first address of the table, and one far beyond it.
    assert_eq!(ranges(&[(0x11, 0x1b), (0x12, 0x0b)], &[0, 0x10]), "All([(12288, 12304)])");
    let far = [0xff, 0xff, 0xff, 0xff, 0xff, 0xff, 0xff, 0xff, 0xff, 0x01, 0x10];
    assert_eq!(ranges(&[(0x11, 0x1b), (0x12, 0x0b)], &far), "Broken([])");
    // Once, and twice: the last counts.
    let mut once = 0x1000u64.to_le_bytes().to_vec();
    once.push(0x10);
    assert_eq!(ranges(&[(0x11, 0x01), (0x12, 0x0b)], &once), "All([(4096, 4112)])");
    let mut twice = u64::MAX.to_le_bytes().to_vec();
    twice.extend_from_slice(&once);
    assert_eq!(ranges(&[(0x11, 0x01), (0x11, 0x01), (0x12, 0x0b)], &twice), "All([(4096, 4112)])");
    // The length leads beyond the last address.
    let mut long = u64::MAX.to_le_bytes().to_vec();
    long.push(0x10);
    assert_eq!(ranges(&[(0x11, 0x01), (0x12, 0x0b)], &long), "Broken([])");
}

/// A unit in the 64-bit format, with a subprogram whose range list is the first of a
/// table that begins at 8 and says so much of it.
fn wide_unit(word: u64) -> Vec<(String, &'static [u8])> {
    let abbrev = vec![1, 0x11, 1, 0x74, 0x17, 0, 0, 2, 0x2e, 0, 0x55, 0x23, 0, 0, 0];
    let mut body = Vec::new();
    body.extend_from_slice(&5u16.to_le_bytes());
    body.extend_from_slice(&[1, 8]);
    body.extend_from_slice(&0u64.to_le_bytes());
    body.push(1);
    body.extend_from_slice(&8u64.to_le_bytes());
    body.extend_from_slice(&[2, 0, 0]);
    let mut info = vec![0xff; 4];
    info.extend_from_slice(&(body.len() as u64).to_le_bytes());
    info.extend_from_slice(&body);
    let mut lists = vec![0; 8];
    lists.extend_from_slice(&word.to_le_bytes());
    // A start and a length, and the end.
    lists.push(7);
    lists.extend_from_slice(&0x1000u64.to_le_bytes());
    lists.extend_from_slice(&[0x10, 0]);
    vec![
        (".debug_info".to_string(), leak(info)),
        (".debug_abbrev".to_string(), leak(abbrev)),
        (".debug_rnglists".to_string(), leak(lists)),
    ]
}

#[test]
fn lists_are_found_by_number_in_the_wide_format_too() {
    let ranges = |word| {
        let units = read_units(&wide_unit(word), true).unwrap();
        format!("{:?}", units[0].entries()[1].ranges)
    };
    assert_eq!(ranges(8), "All([(4096, 4112)])");
    assert_eq!(ranges(u64::MAX), "Broken([])");
}

#[test]
fn sections_go_by_their_other_names_too() {
    let table = vec![
        ("__debug_info".to_string(), leak(info())),
        ("__debug_abbrev".to_string(), leak(abbrev())),
    ];
    assert_eq!(read_units(&table, true).unwrap().len(), 1);
    assert_eq!(read_units(&vec![], true).unwrap().len(), 0);
}

#[test]
fn a_unit_without_its_abbreviations_cannot_be_read() {
    let mut cut = info();
    cut.truncate(8);
    let table = vec![(".debug_info".to_string(), leak(cut))];
    assert!(matches!(read_units(&table, true), Err(LoadError::Unit)));
}

#[test]
fn an_object_file_is_loaded() {
    let file = elf(&[(".debug_info", 0, info()), (".debug_abbrev", 0, abbrev())]);
    let s = store(leak(file), 0x40_0000).unwrap();
    assert_eq!(s.units().len(), 1);
    assert_eq!(s.slide(), 0x40_0000);
    assert_eq!(bilbo::locate::subprogram_at(s.units(), 0x10ff), Ok(Some((0, s.units()[0].entries()[2].offset))));
    assert!(matches!(store(leak(b"no object".to_vec()), 0), Err(LoadError::NotAnObject)));
}

/// A frame with a frame record, in code without call-frame information: the words at
/// the frame pointer and after it are asked for.
#[test]
fn a_frame_is_unwound_word_by_word() {
    let file = elf(&[(".text", 0x1000, vec![0x90; 0x200])]);
    let slide = 0x50_0000;
    let u = unwinder(leak(file), "demo".to_string(), slide).unwrap();
    let raw = Raw { pc: slide + 0x1010, sp: 0x7000, fp: 0x7010 };
    let mut known = vec![];
    let mut steps = 0;
    loop {
        steps += 1;
        assert!(steps < 10);
        match unwind(&u, raw, slide, known.clone()) {
            Step::Read(0x7010) => known.push((0x7010, 0x7090)),
            Step::Read(0x7018) => known.push((0x7018, slide + 0x1100)),
            Step::Read(other) => panic!("{other:#x}"),
            Step::Done(c) => {
                assert_eq!(c, Caller { static_pc: 0x1100, caller_fp: 0x7090, caller_sp: 0x7020 });
                break;
            }
            Step::Stop => panic!("stopped"),
        }
    }
    assert!(steps > 1);
}

/// The caller's return address lies in the word below the frame: with the stack at the
/// first address there is none.
#[test]
fn a_stack_at_the_first_address_has_no_caller() {
    let file = elf(&[(".text", 0x1000, vec![0x90; 0x200])]);
    let u = unwinder(leak(file), "demo".to_string(), 0).unwrap();
    for sp in [0, 7] {
        let raw = Raw { pc: 0x1010, sp, fp: 0x7010 };
        assert!(matches!(unwind(&u, raw, 0, vec![]), Step::Stop));
    }
}

#[test]
fn no_unwinder_without_code() {
    assert!(unwinder(leak(elf(&[])), "demo".to_string(), 0).is_none());
    assert!(unwinder(leak(vec![1, 2, 3]), "demo".to_string(), 0).is_none());
    assert!(unwinder(leak(elf(&[(".text", u64::MAX, vec![0; 2])])), "demo".to_string(), 0).is_none());
    assert!(darwin::unwinder(leak(elf(&[(".text", 0, vec![0])])), "demo".to_string(), 0).is_none());
}

/// An AArch64 Mach-O file with a `__TEXT` segment that holds a section of instructions.
fn macho(base: u64, section: &str) -> Vec<u8> {
    let mut b = Vec::new();
    b.extend_from_slice(&0xfeed_facfu32.to_le_bytes());
    b.extend_from_slice(&0x0100_000cu32.to_le_bytes());
    b.extend_from_slice(&0u32.to_le_bytes());
    b.extend_from_slice(&2u32.to_le_bytes());
    b.extend_from_slice(&1u32.to_le_bytes());
    b.extend_from_slice(&152u32.to_le_bytes());
    b.extend_from_slice(&[0; 8]);
    let name = |s: &str| {
        let mut n = s.as_bytes().to_vec();
        n.resize(16, 0);
        n
    };
    b.extend_from_slice(&0x19u32.to_le_bytes());
    b.extend_from_slice(&152u32.to_le_bytes());
    b.extend_from_slice(&name("__TEXT"));
    for x in [base, 0x4000, 0, 0x400] {
        b.extend_from_slice(&x.to_le_bytes());
    }
    for x in [5u32, 5, 1, 0] {
        b.extend_from_slice(&x.to_le_bytes());
    }
    b.extend_from_slice(&name(section));
    b.extend_from_slice(&name("__TEXT"));
    for x in [0x1_0000_0200u64, 0x100] {
        b.extend_from_slice(&x.to_le_bytes());
    }
    for x in [0x200u32, 2, 0, 0, 0x8000_0400, 0, 0, 0] {
        b.extend_from_slice(&x.to_le_bytes());
    }
    // Instructions that do nothing.
    b.resize(0x200, 0);
    for _ in 0..0x80 {
        b.extend_from_slice(&0xd503_201fu32.to_le_bytes());
    }
    b
}

#[test]
fn a_frame_of_the_other_machine_is_unwound_too() {
    let slide = 0x1000;
    let u = darwin::unwinder(leak(macho(0x1_0000_0000, "__text")), "demo".to_string(), slide).unwrap();
    let raw = darwin::Raw { pc: 0x1_0000_1280, sp: 0x7000, fp: 0x7010, lr: 0x1_0000_1290 };
    let mut known = vec![];
    let mut steps = 0;
    loop {
        steps += 1;
        assert!(steps < 10);
        match darwin::unwind(&u, raw, slide, known.clone()) {
            Step::Read(0x7010) => known.push((0x7010, 0x7090)),
            Step::Read(0x7018) => known.push((0x7018, 0x1_0000_12a0)),
            Step::Read(other) => panic!("{other:#x}"),
            Step::Done(c) => {
                assert_eq!(c, Caller { static_pc: 0x1_0000_02a0, caller_fp: 0x7090, caller_sp: 0x7020 });
                break;
            }
            Step::Stop => panic!("stopped"),
        }
    }
}

#[test]
fn frames_in_a_program_that_lies_oddly_are_not_unwound() {
    let stops = |base, section| {
        let u = darwin::unwinder(leak(macho(base, section)), "demo".to_string(), 0).unwrap();
        let raw = darwin::Raw { pc: base + 0x280, sp: 0x7000, fp: 0x7010, lr: 0x1_0000_1290 };
        matches!(darwin::unwind(&u, raw, 0, vec![]), Step::Stop)
    };
    assert!(!stops(0x1_0000_0000, "__stubs"));
    assert!(stops(0x2_0000_0000, "__stubs"));
    assert!(stops(0x2_0000_0000, "__stub_helper"));
    assert!(stops(u64::MAX - 0x5000, "__text"));
    // Instructions make no table.
    assert!(stops(0x1_0000_0000, "__unwind_info"));
}

/// A function without a frame record, that a compact table says to be so: where its
/// code has moved the stack pointer, the caller's is past that.
#[test]
fn the_code_tells_how_far_the_stack_pointer_moved() {
    let mut file = macho(0x1_0000_0000, "__unwind_info");
    // The table is in the section; the code is at 0x300 of the segment.
    let mut b = Vec::new();
    for x in [1u32, 28, 1, 0, 0, 32, 2, 0x0200_0000] {
        b.extend_from_slice(&x.to_le_bytes());
    }
    for x in [0x300u32, 56, 0, 0x340, 0, 0] {
        b.extend_from_slice(&x.to_le_bytes());
    }
    for x in [2u32, 8 | 1 << 16, 0x300, 0x0200_0000] {
        b.extend_from_slice(&x.to_le_bytes());
    }
    file[0x200..0x200 + b.len()].copy_from_slice(&b);
    // Take 0x20 from the stack pointer, and store two registers there.
    file[0x300..0x304].copy_from_slice(&0xd100_83ffu32.to_le_bytes());
    file[0x304..0x308].copy_from_slice(&0xa901_4ff4u32.to_le_bytes());
    let u = darwin::unwinder(leak(file), "demo".to_string(), 0).unwrap();
    let raw = |pc| darwin::Raw { pc, sp: 0x7000, fp: 0x7010, lr: 0x1_0000_0290 };
    let caller = |sp| Step::Done(Caller { static_pc: 0x1_0000_0290, caller_fp: 0x7010, caller_sp: sp });
    assert_eq!(darwin::unwind(&u, raw(0x1_0000_0300), 0, vec![]), caller(0x7000));
    assert_eq!(darwin::unwind(&u, raw(0x1_0000_0304), 0, vec![]), caller(0x7020));
}

#[test]
fn a_long_run_of_big_steps_is_not_calm() {
    let step = 0xd17f_ffffu32.to_le_bytes();
    assert!(is_calm(&step.repeat(128)));
    assert!(!is_calm(&step.repeat(129)));
    // An instruction that is none of them ends a run.
    let mut two = step.repeat(128);
    two.extend_from_slice(&0xd503_201fu32.to_le_bytes());
    two.extend_from_slice(&step.repeat(128));
    assert!(is_calm(&two));
    assert!(is_calm(&[]));
}

/// `.eh_frame` with an entry for the code at 0x1000: the frame's address is 16 bytes
/// past the stack pointer, and the return address below it.
fn call_frames(encoding: u8) -> (Vec<u8>, Vec<u8>) {
    let mut frame = Vec::new();
    // A common entry: addresses as they are, of eight bytes.
    let mut cie = 0u32.to_le_bytes().to_vec();
    cie.extend_from_slice(&[1, 0, 1, 0x78, 16]);
    cie.extend_from_slice(&[0x0c, 7, 16, 0x90, 1]);
    cie.resize(20, 0);
    frame.extend_from_slice(&(cie.len() as u32).to_le_bytes());
    frame.extend_from_slice(&cie);
    let at = frame.len() as u32;
    let mut fde = (at + 4).to_le_bytes().to_vec();
    fde.extend_from_slice(&0x1000u64.to_le_bytes());
    fde.extend_from_slice(&0x200u64.to_le_bytes());
    frame.extend_from_slice(&(fde.len() as u32).to_le_bytes());
    frame.extend_from_slice(&fde);
    frame.extend_from_slice(&[0; 4]);
    // The table: one row, of four bytes each.
    let mut hdr = vec![1, 0x03, encoding, 0x03];
    hdr.extend_from_slice(&0x3000u32.to_le_bytes());
    hdr.extend_from_slice(&1u32.to_le_bytes());
    hdr.extend_from_slice(&0x1000u32.to_le_bytes());
    hdr.extend_from_slice(&(0x3000 + at).to_le_bytes());
    (frame, hdr)
}

#[test]
fn call_frame_information_is_found_with_a_table_and_without() {
    let (frame, hdr) = call_frames(3);
    let text = (".text", 0x1000, vec![0x90; 0x200]);
    let info = (".eh_frame", 0x3000, frame);
    let files = [
        elf(&[text.clone(), info.clone(), (".eh_frame_hdr", 0x2000, hdr)]),
        elf(&[text.clone(), info.clone()]),
    ];
    for file in files {
        let u = unwinder(leak(file), "demo".to_string(), 0).unwrap();
        let raw = Raw { pc: 0x1010, sp: 0x7000, fp: 0x7010 };
        assert_eq!(unwind(&u, raw, 0, vec![]), Step::Read(0x7008));
        let want = Step::Done(Caller { static_pc: 0x1100, caller_fp: 0x7010, caller_sp: 0x7010 });
        assert_eq!(unwind(&u, raw, 0, vec![(0x7008, 0x1100)]), want);
    }
    // A table that leads before the beginning, and one that may count too much.
    let (frame, mut hdr) = call_frames(3);
    hdr[4..8].copy_from_slice(&0x4000u32.to_le_bytes());
    let (_, wide) = call_frames(4);
    for table in [hdr, wide] {
        let file = elf(&[text.clone(), (".eh_frame", 0x3000, frame.clone()), (".eh_frame_hdr", 0x2000, table)]);
        let u = unwinder(leak(file), "demo".to_string(), 0).unwrap();
        let raw = Raw { pc: 0x1010, sp: 0x7000, fp: 0x7010 };
        assert_eq!(unwind(&u, raw, 0, vec![(0x7008, 0x1100)]), Step::Stop);
    }
}

/// A compact unwind table: two opcodes, a page of those functions at an address, and
/// the end.
fn table(addr: u32, kind: u32, functions: &[u32]) -> Vec<u8> {
    let mut b = Vec::new();
    for x in [1u32, 28, 2, 0, 0, 36, 2, 0x0400_0000, 0x0200_0000] {
        b.extend_from_slice(&x.to_le_bytes());
    }
    for x in [addr, 60, 0, addr.saturating_add(0x100), 0, 0, kind] {
        b.extend_from_slice(&x.to_le_bytes());
    }
    let n = if kind == 2 { functions.len() / 2 } else { functions.len() };
    for x in [12u16, n as u16, 12, 0] {
        b.extend_from_slice(&x.to_le_bytes());
    }
    for x in functions {
        b.extend_from_slice(&x.to_le_bytes());
    }
    b
}

#[test]
fn a_compact_table_that_can_be_searched() {
    assert!(is_kept(&table(0x1000, 3, &[0, 0x0100_0010, 0x0000_0020])));
    assert!(is_kept(&table(0x1000, 2, &[0x1000, 0, 0x1010, 0])));
    // An opcode that is not there, functions out of order, an address beyond the last.
    assert!(!is_kept(&table(0x1000, 3, &[0, 0x0200_0010])));
    assert!(!is_kept(&table(0x1000, 3, &[0x20, 0x10])));
    assert!(!is_kept(&table(0x1000, 2, &[0x1010, 0, 0x1000, 0])));
    assert!(!is_kept(&table(u32::MAX - 4, 3, &[0, 0x10])));
    // One that breaks off.
    let whole = table(0x1000, 3, &[0]);
    assert!(!is_kept(&whole[..whole.len() - 1]));
    assert!(!is_kept(&[]));
}
