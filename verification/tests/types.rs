//! Types and locals, from debugging information written down by hand.
use bilbo::classify::{classify, Store};
use bilbo::die::{
    child_offsets, child_with_tag, die_name, find, strip, subprogram_name, type_ref, Attr, Entry, Fault, Location,
    Name, Ranges, Span, Unit, AT_ABSTRACT_ORIGIN, AT_BYTE_SIZE, AT_DATA_MEMBER_LOCATION, AT_DECLARATION, AT_DISCR,
    AT_ENCODING, AT_FRAME_BASE, AT_LOW_PC, AT_TYPE, TAG_BASE_TYPE, TAG_LEXICAL_BLOCK, TAG_MEMBER,
    TAG_POINTER_TYPE, TAG_STRUCTURE_TYPE, TAG_SUBPROGRAM, TAG_TEMPLATE_TYPE_PARAMETER, TAG_TYPEDEF,
    TAG_VARIABLE, TAG_VARIANT, TAG_VARIANT_PART,
};
use bilbo::frame::Caller;
use bilbo::index::{def_index, def_site, definition, is_stub};
use bilbo::locate::{eval_addr, frame_base, local_at_address, subprogram_at, Opcodes, Regs};
use bilbo::plan::{SeqLayout, Site, Ty};
use bilbo::resolve::{ResolveError, Resolver};
use bilbo::tramp::resolve_tramp;

const TAG_COMPILE_UNIT: u16 = 0x11;

fn die(offset: usize, depth: isize, tag: u16, name: &str, attrs: Vec<(u16, Attr)>) -> Entry {
    Entry {
        offset,
        depth,
        tag,
        name: if name.is_empty() { Name::Absent } else { Name::Text(name.to_string()) },
        attrs,
        discr_value: None,
        ranges: Ranges::All(vec![]),
        location: Location::Absent,
    }
}

fn base(offset: usize, name: &str, size: u64, encoding: u8) -> Entry {
    die(
        offset,
        1,
        TAG_BASE_TYPE,
        name,
        vec![(AT_BYTE_SIZE, Attr::Udata(size)), (AT_ENCODING, Attr::Encoding(encoding))],
    )
}

fn member(offset: usize, depth: isize, name: &str, at: u64, ty: usize) -> Entry {
    die(
        offset,
        depth,
        TAG_MEMBER,
        name,
        vec![(AT_DATA_MEMBER_LOCATION, Attr::Udata(at)), (AT_TYPE, Attr::UnitRef(ty))],
    )
}

fn record(offset: usize, name: &str, size: u64) -> Entry {
    die(offset, 1, TAG_STRUCTURE_TYPE, name, vec![(AT_BYTE_SIZE, Attr::Udata(size))])
}

fn param(offset: usize, name: &str, ty: usize) -> Entry {
    die(offset, 2, TAG_TEMPLATE_TYPE_PARAMETER, name, vec![(AT_TYPE, Attr::UnitRef(ty))])
}

/// A unit that holds:
///   10 u8, 11 u16, 12 u64, 13 bool, 14 f64, 15 char, 16 i32, 17 ()
///   20 *u8
///   30 struct Vec<u8> { cap, ptr, len }, 40 struct String { vec }
///   50 struct Endpoint { host, port }, 60 MaybeUninit<Endpoint>
///   70 struct Node { val, next }, 80 Option<Box<Node>>, 95 *Node
///   100 a pair, 110 an enum of three, 120 a name for u16
///   200 a subprogram with a local in a block
fn unit() -> Unit {
    let mut es = vec![die(1, 0, TAG_COMPILE_UNIT, "", vec![])];
    es.push(base(10, "u8", 1, 0x08));
    es.push(base(11, "u16", 2, 0x07));
    es.push(base(12, "u64", 8, 0x07));
    es.push(base(13, "bool", 1, 0x02));
    es.push(base(14, "f64", 8, 0x04));
    es.push(base(15, "char", 4, 0x10));
    es.push(base(16, "i32", 4, 0x05));
    es.push(base(17, "()", 0, 0x07));
    es.push(die(20, 1, TAG_POINTER_TYPE, "*const u8", vec![(AT_TYPE, Attr::UnitRef(10))]));
    es.push(record(30, "Vec<u8, alloc::alloc::Global>", 24));
    es.push(param(31, "T", 10));
    es.push(member(32, 2, "cap", 0, 12));
    es.push(member(33, 2, "ptr", 8, 20));
    es.push(member(34, 2, "len", 16, 12));
    es.push(record(40, "String", 24));
    es.push(member(41, 2, "vec", 0, 30));
    es.push(record(50, "Endpoint", 32));
    es.push(member(51, 2, "host", 0, 40));
    es.push(member(52, 2, "port", 24, 120));
    es.push(record(60, "MaybeUninit<Endpoint>", 32));
    es.push(param(61, "T", 50));
    es.push(record(70, "Node", 16));
    es.push(member(71, 2, "val", 0, 12));
    es.push(member(72, 2, "next", 8, 80));
    es.push(record(80, "Option<alloc::boxed::Box<Node>>", 8));
    es.push(die(81, 2, TAG_VARIANT_PART, "", vec![(AT_DISCR, Attr::UnitRef(82))]));
    es.push(member(82, 3, "", 0, 12));
    let mut none = die(83, 3, TAG_VARIANT, "", vec![]);
    none.discr_value = Some(0);
    es.push(none);
    es.push(member(84, 4, "None", 0, 90));
    es.push(die(85, 3, TAG_VARIANT, "", vec![]));
    es.push(member(86, 4, "Some", 0, 92));
    es.push(record(90, "None", 8));
    es.push(record(92, "Some", 8));
    es.push(member(93, 2, "__0", 0, 95));
    es.push(die(95, 1, TAG_POINTER_TYPE, "Box<Node>", vec![(AT_TYPE, Attr::UnitRef(70))]));
    es.push(record(100, "(f64, u8)", 16));
    es.push(member(101, 2, "__1", 8, 10));
    es.push(member(102, 2, "__0", 0, 14));
    es.push(die(110, 1, 0x04, "Color", vec![]));
    es.push(die(120, 1, TAG_TYPEDEF, "Port", vec![(AT_TYPE, Attr::UnitRef(11))]));
    let mut sub = die(
        200,
        1,
        TAG_SUBPROGRAM,
        "main",
        vec![(AT_LOW_PC, Attr::Addr(0x1000)), (AT_FRAME_BASE, Attr::Exprloc(vec![0x56]))],
    );
    sub.ranges = Ranges::All(vec![(0x1000, 0x1100)]);
    es.push(sub);
    es.push(die(201, 2, TAG_LEXICAL_BLOCK, "", vec![]));
    let mut local = die(202, 3, TAG_VARIABLE, "e", vec![(AT_TYPE, Attr::UnitRef(60))]);
    // DW_OP_fbreg -24
    local.location = Location::Expr(vec![0x91, 0x68]);
    es.push(local);
    let mut moved = die(203, 3, TAG_VARIABLE, "n", vec![(AT_TYPE, Attr::UnitRef(12))]);
    moved.location = Location::List(vec![Span { begin: 0x1080, end: 0x1100, expr: vec![0x77, 0x08] }]);
    es.push(moved);
    let mut tramp = die(210, 1, TAG_SUBPROGRAM, "map_insert<alloc::string::String>", vec![(AT_LOW_PC, Attr::Addr(0x2000))]);
    tramp.ranges = Ranges::All(vec![(0x2000, 0x2010)]);
    es.push(tramp);
    Unit::new(es, true).unwrap()
}

fn store() -> Store {
    Store::new(vec![unit()], 0x40_0000)
}

fn layout(off: usize) -> Result<Ty, Fault> {
    classify(&store(), Site { unit: 0, off })
}

#[test]
fn entries_are_found_by_their_offsets() {
    let u = unit();
    assert_eq!(find(&u, 40), Some(15));
    assert_eq!(find(&u, 41), Some(16));
    assert_eq!(find(&u, 42), None);
    assert_eq!(die_name(&u, 50), Some(&"Endpoint".to_string()));
    assert_eq!(die_name(&u, 81), None);
    assert_eq!(type_ref(&u, 52), Some(120));
    assert_eq!(strip(&u, 120), Ok(11));
    assert_eq!(child_offsets(&u, 30), Ok(vec![31, 32, 33, 34]));
    assert_eq!(child_offsets(&u, 42), Err(Fault::Entry));
    assert_eq!(child_with_tag(&u, 80, TAG_VARIANT_PART), Ok(Some(81)));
    assert_eq!(child_with_tag(&u, 50, TAG_VARIANT_PART), Ok(None));
    assert_eq!(subprogram_name(&u, 200), "main");
}

#[test]
fn entries_out_of_order_are_no_unit() {
    assert!(Unit::new(vec![base(5, "a", 1, 7), base(5, "b", 1, 7)], true).is_none());
}

#[test]
fn a_name_may_come_from_an_origin() {
    let es = vec![
        base(3, "far", 1, 7),
        die(4, 1, TAG_SUBPROGRAM, "", vec![(AT_ABSTRACT_ORIGIN, Attr::UnitRef(3))]),
    ];
    let u = Unit::new(es, true).unwrap();
    assert_eq!(die_name(&u, 4), Some(&"far".to_string()));
}

#[test]
fn base_types() {
    assert!(matches!(layout(10), Ok(Ty::U(1))));
    assert!(matches!(layout(13), Ok(Ty::Bool)));
    assert!(matches!(layout(14), Ok(Ty::F64)));
    assert!(matches!(layout(15), Ok(Ty::Char)));
    assert!(matches!(layout(16), Ok(Ty::I(4))));
    assert!(matches!(layout(17), Ok(Ty::Unit)));
    assert!(matches!(layout(120), Ok(Ty::U(2))));
    assert!(matches!(layout(110), Ok(Ty::Unknown(w)) if w == "enum Color"));
    assert!(matches!(layout(18), Err(Fault::Entry)));
}

#[test]
fn the_words_of_strings_and_lists_are_found() {
    let words = SeqLayout { ptr_off: 8, cap_off: 0, len_off: 16 };
    assert!(matches!(layout(40), Ok(Ty::Str(seq)) if seq == words));
    match layout(30) {
        Ok(Ty::Vec { elem, elem_size, elem_align, seq }) => {
            assert!(matches!(*elem, Ty::U(1)));
            assert_eq!((elem_size, elem_align), (1, 1));
            assert_eq!(seq, words);
        }
        other => panic!("{other:?}"),
    }
}

#[test]
fn a_wrapper_is_seen_through() {
    match layout(60) {
        Ok(Ty::Struct { name, fields }) => {
            assert_eq!(name, "Endpoint");
            assert_eq!(fields.len(), 2);
            assert_eq!((fields[0].name.as_str(), fields[0].offset), ("host", 0));
            assert_eq!((fields[1].name.as_str(), fields[1].offset), ("port", 24));
            assert!(matches!(fields[1].ty, Ty::U(2)));
        }
        other => panic!("{other:?}"),
    }
}

#[test]
fn a_cycle_is_tied_off() {
    let node = Site { unit: 0, off: 70 };
    match layout(70) {
        Ok(Ty::Rec { site, body }) => {
            assert_eq!(site, node);
            let Ty::Struct { fields, .. } = *body else { panic!("a struct") };
            let Ty::Opt { none_discr, some_discr, disc_size, size, inner, .. } = &fields[1].ty else {
                panic!("an option")
            };
            assert_eq!((*none_discr, *some_discr, *disc_size, *size), (0, None, 8, 8));
            let Ty::Boxed { inner, size, .. } = &**inner else { panic!("a box") };
            assert_eq!(*size, 16);
            assert!(matches!(**inner, Ty::Ref(s) if s == node));
        }
        other => panic!("{other:?}"),
    }
}

#[test]
fn a_pair_is_in_the_order_of_its_positions() {
    match layout(100) {
        Ok(Ty::Tuple { fields }) => {
            assert_eq!((fields[0].name.as_str(), fields[0].offset), ("__0", 0));
            assert_eq!((fields[1].name.as_str(), fields[1].offset), ("__1", 8));
        }
        other => panic!("{other:?}"),
    }
}

#[test]
fn a_stub_gives_way_to_its_definition() {
    let stub = Unit::new(
        vec![die(
            9,
            1,
            TAG_STRUCTURE_TYPE,
            "Endpoint",
            vec![(AT_DECLARATION, Attr::Flag(true))],
        )],
        true,
    )
    .unwrap();
    assert_eq!(is_stub(&stub, 9), Ok(true));
    assert_eq!(is_stub(&unit(), 50), Ok(false));
    let units = vec![stub, unit()];
    let defs = def_index(&units);
    let there = Site { unit: 1, off: 50 };
    assert_eq!(definition(&defs, "Endpoint"), Some(there));
    assert_eq!(definition(&defs, "None"), None);
    assert_eq!(def_site(&units, &defs, Site { unit: 0, off: 9 }), Ok(there));
    assert_eq!(def_site(&units, &defs, there), Ok(there));
    assert!(matches!(
        classify(&Store::new(units, 0), Site { unit: 0, off: 9 }),
        Ok(Ty::Struct { name, .. }) if name == "Endpoint"
    ));
}

#[test]
fn locations() {
    let r = Regs { fp: 1000, sp: 2000, frame_base: 3000, ops: Opcodes::x86_64() };
    assert_eq!(eval_addr(&[0x91, 0x68], r), Ok(Some(2976)));
    assert_eq!(eval_addr(&[0x76, 0x08], r), Ok(Some(1008)));
    assert_eq!(eval_addr(&[0x77, 0x08], r), Ok(Some(2008)));
    assert_eq!(eval_addr(&[0x9c], r), Ok(Some(2000)));
    assert_eq!(eval_addr(&[0x91, 0x68, 0x9f], r), Ok(None));
    assert_eq!(eval_addr(&[0x91, 0x80], r), Err(Fault::Offset));
    assert_eq!(eval_addr(&[], r), Ok(None));
    assert_eq!(frame_base(&[0x56], 1000, 2000, Opcodes::x86_64()), Ok(Some(1000)));
    assert_eq!(frame_base(&[0x9c], 1000, 2000, Opcodes::x86_64()), Ok(Some(2000)));
    assert_eq!(frame_base(&[0x6d], 1000, 2000, Opcodes::aarch64()), Ok(Some(1000)));
    assert_eq!(frame_base(&[0x56], 1000, 2000, Opcodes::aarch64()), Ok(None));
}

#[test]
fn the_local_that_a_pointer_means() {
    let units = vec![unit()];
    assert_eq!(subprogram_at(&units, 0x1010), Ok(Some((0, 200))));
    assert_eq!(subprogram_at(&units, 0x1100), Ok(None));
    let at = |pc, ptr| local_at_address(&units[0], 200, 5000, 4000, pc, ptr, Opcodes::x86_64());
    assert_eq!(at(0x1010, 4976), Ok(Some(("e".to_string(), 60))));
    assert_eq!(at(0x1090, 4008), Ok(Some(("n".to_string(), 12))));
}

#[test]
fn a_call_site_is_looked_up_once_and_types_are_shared() {
    let mut r: Resolver<u32> = Resolver::new(store(), Opcodes::x86_64());
    let caller = |pc| Caller { static_pc: pc, caller_fp: 5000, caller_sp: 4000 };
    assert_eq!(r.seen(0x1010), None);
    let k = r.plan_for(&caller(0x1010), 4976).unwrap();
    assert_eq!(r.seen(0x1010), Some(k));
    assert_eq!(r.seen(0x1011), None);
    assert!(matches!(&r.resolved(k).ty, Ty::Struct { name, .. } if name == "Endpoint"));
    // The site is known now, whatever pointer comes with it.
    assert_eq!(r.plan_for(&caller(0x1010), 1), Ok(k));
    assert_eq!(r.plan_for(&caller(0x1011), 4976), Ok(k));
    r.ext(k, |_| 7);
    r.ext(k, |_| 8);
    assert_eq!(r.resolved(k).ext, Some(7));
    assert_eq!(r.plan_for(&caller(0x5000), 4976), Err(ResolveError::NoSubprogram));
}

#[test]
fn the_functions_that_build_maps() {
    let s = store();
    assert_eq!(resolve_tramp(&s, "map_insert", "String", true), Ok(Some(0x40_2000)));
    assert_eq!(resolve_tramp(&s, "map_insert", "u64", true), Ok(None));
    assert_eq!(resolve_tramp(&s, "map_insert", "u64", false), Ok(Some(0x40_2000)));
    assert_eq!(resolve_tramp(&s, "map_new_at", "u64", false), Ok(None));
}
