use bilbo::arith::{le_bytes, next_power_of_two, power_of_two, unsigned_of};
use bilbo::darwin;
use bilbo::frame::{caller_pc, image_slide, return_slot, Raw};
use bilbo::jitdump::{header, record};
use bilbo::leb128::try_sleb128;
use bilbo::number::{parse_i128, parse_u128};
use bilbo::plan::{FieldTy, Site, Ty};
use bilbo::scan::{isws, number_span, rt_skip, rt_ws};
use bilbo::text::{bytes_of, chars_of, joined, starts_with, str_eq};
use bilbo::tramp::{norm_ty, same_chars};
use bilbo::tuple::{sort_fields, tuple_like};

#[test]
fn integers_as_bytes() {
    assert_eq!(le_bytes(0x0102_0304, 4), vec![4, 3, 2, 1]);
    assert_eq!(le_bytes(0x1_ff, 1), vec![0xff]);
    assert_eq!(unsigned_of(-1), u128::MAX);
    assert_eq!(unsigned_of(5), 5);
}

#[test]
fn powers_of_two() {
    assert!(power_of_two(1) && power_of_two(64) && power_of_two(1 << 63));
    assert!(!power_of_two(0) && !power_of_two(3));
    assert_eq!(next_power_of_two(1), Some(1));
    assert_eq!(next_power_of_two(24), Some(32));
    assert_eq!(next_power_of_two((1 << 63) + 1), None);
}

#[test]
fn a_number_that_does_not_end() {
    assert_eq!(try_sleb128(&[0x80, 0x80]), None);
    assert_eq!(try_sleb128(&[]), None);
    assert_eq!(try_sleb128(&[0x80, 0x7f, 0x01]), Some((-128, 2)));
}

#[test]
fn decimal_numbers() {
    assert_eq!(parse_u128("0"), Some(0));
    assert_eq!(parse_u128("+7"), Some(7));
    assert_eq!(parse_u128("-7"), None);
    assert_eq!(parse_u128(""), None);
    assert_eq!(parse_i128("-7"), Some(-7));
    assert_eq!(parse_i128("7x"), None);
}

#[test]
fn passing_over_values() {
    assert!(isws(b' ') && isws(b'\n') && isws(b'\t') && isws(b'\r') && !isws(b'x'));
    assert_eq!(rt_ws(b"  x", 0), 2);
    let input = br#" {"a": "]}", "b": [1, {"c": "\"]"}]} , 12"#;
    let end = rt_skip(input, 0);
    assert_eq!(&input[end..], b" , 12");
    assert_eq!(rt_skip(b"12,3", 0), 2);
    assert_eq!(rt_skip(b"\"a\\\"b\"x", 0), 6);
    assert_eq!(rt_skip(b"   ", 0), 3);
    assert_eq!(number_span(b"  -1.5e+3]", 0), (2, 9));
    assert_eq!(number_span(b"x", 0), (0, 0));
}

#[test]
fn text_in_pieces() {
    assert!(str_eq("🦀", "🦀") && !str_eq("a", "b") && !str_eq("a", "ab"));
    assert_eq!(chars_of("aä"), vec!['a', 'ä']);
    assert_eq!(bytes_of("ä"), vec![0xc3, 0xa4]);
    assert!(starts_with("Vec<u8>", "Vec<") && !starts_with("Ve", "Vec<"));
    assert_eq!(joined("a", "b"), "ab");
}

#[test]
fn a_type_name_without_its_path() {
    let short = |s: &str| norm_ty(&chars_of(s)).into_iter().collect::<String>();
    assert_eq!(short("alloc::string::String"), "String");
    assert_eq!(short("alloc::vec::Vec<alloc::string::String>"), "Vec<alloc::string::String>");
    assert_eq!(short("u64"), "u64");
    assert!(same_chars(&chars_of("a"), &chars_of("a")));
    assert!(!same_chars(&chars_of("a"), &chars_of("b")));
}

fn field(name: &str, offset: usize) -> FieldTy {
    FieldTy { name: name.to_string(), offset, ty: Ty::U(1) }
}

#[test]
fn tuples_are_put_in_the_order_of_their_positions() {
    let fields = vec![field("__1", 0), field("__0", 4), field("__10", 8), field("__2", 9)];
    assert!(tuple_like(&fields));
    assert!(!tuple_like(&vec![field("a", 0)]));
    assert!(!tuple_like(&vec![]));
    let names: Vec<String> = sort_fields(fields).into_iter().map(|f| f.name).collect();
    assert_eq!(names, ["__0", "__1", "__2", "__10"]);
}

#[test]
fn a_type_that_refers_to_itself() {
    let site = Site { unit: 1, off: 2 };
    let ty = Ty::Boxed { inner: Box::new(Ty::Ref(site)), size: 8, align: 8 };
    assert!(ty.mentions(site));
    assert!(!ty.mentions(Site { unit: 1, off: 3 }));
}

#[test]
fn frames() {
    assert_eq!(image_slide(&vec![]), 0);
    assert_eq!(image_slide(&vec![7, 9]), 7);
    assert_eq!(return_slot(Raw { pc: 0, sp: 0, fp: 16 }), Some(24));
    assert_eq!(return_slot(Raw { pc: 0, sp: 0, fp: u64::MAX }), None);
    assert_eq!(caller_pc(100, 40), Some(60));
    assert_eq!(caller_pc(39, 40), None);
}

#[test]
fn the_image_of_the_program() {
    let images = vec![("/lib/a".to_string(), 5), ("/bin/me".to_string(), 9)];
    assert_eq!(darwin::image_slide(&images, "/bin/me"), 9);
    assert_eq!(darwin::image_slide(&images, "/bin/other"), 5);
    assert_eq!(darwin::image_slide(&vec![], "/bin/me"), 0);
}

#[test]
fn a_dump_tells_its_lengths() {
    let h = header(62, 7);
    assert_eq!(h.len(), 40);
    assert_eq!(&h[..8], &[0x44, 0x54, 0x69, 0x4a, 1, 0, 0, 0]);
    assert_eq!(&h[8..16], &[40, 0, 0, 0, 62, 0, 0, 0]);
    assert_eq!(&h[20..24], &[7, 0, 0, 0]);
    let r = record(3, 7, 0x1000, 1, "bind_1", &[0xc3]);
    assert_eq!(r.len(), 16 + 40 + 6 + 1 + 1);
    assert_eq!(&r[..8], &[0, 0, 0, 0, 64, 0, 0, 0]);
    assert_eq!(&r[56..64], b"bind_1\0\xc3");
}
