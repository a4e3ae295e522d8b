use bilbo::interp::{run, BindError, Block, Op};
use bilbo::json::parse;
use bilbo::plan::{FieldTy, SeqLayout, Site, Ty};

const WORDS: SeqLayout = SeqLayout { ptr_off: 8, cap_off: 0, len_off: 16 };

fn writes(ty: &Ty, json: &str) -> String {
    format!("{:?}", run(ty, &parse(json)).unwrap())
}

fn error(ty: &Ty, json: &str) -> BindError {
    run(ty, &parse(json)).unwrap_err()
}

fn field(name: &str, offset: usize, ty: Ty) -> FieldTy {
    FieldTy { name: name.to_string(), offset, ty }
}

fn bytes(off: u64, bytes: &[u8]) -> Op {
    Op::Bytes { block: Block::Dest, off, bytes: bytes.to_vec() }
}

#[test]
fn integers_in_their_bytes() {
    assert_eq!(writes(&Ty::U(2), "443"), format!("{:?}", vec![bytes(0, &[0xbb, 0x01])]));
    assert_eq!(writes(&Ty::I(4), "-3"), format!("{:?}", vec![bytes(0, &[0xfd, 0xff, 0xff, 0xff])]));
    assert_eq!(writes(&Ty::U(1), "258"), format!("{:?}", vec![bytes(0, &[2])]));
    assert_eq!(writes(&Ty::Bool, "true"), format!("{:?}", vec![bytes(0, &[1])]));
    assert_eq!(writes(&Ty::Bool, "1"), format!("{:?}", vec![bytes(0, &[0])]));
    assert_eq!(writes(&Ty::Char, "\"ä\""), format!("{:?}", vec![bytes(0, &[0xe4, 0, 0, 0])]));
    assert_eq!(writes(&Ty::Char, "\"\""), format!("{:?}", vec![bytes(0, &[0, 0, 0, 0])]));
}

#[test]
fn a_string_takes_a_block_and_three_words() {
    let want = vec![
        Op::Alloc { size: 2, align: 1 },
        Op::Bytes { block: Block::Heap(0), off: 0, bytes: b"hi".to_vec() },
        Op::Ptr { block: Block::Dest, off: 8, to: 0 },
        bytes(0, &[2, 0, 0, 0, 0, 0, 0, 0]),
        bytes(16, &[2, 0, 0, 0, 0, 0, 0, 0]),
    ];
    assert_eq!(writes(&Ty::Str(WORDS), "\"hi\""), format!("{want:?}"));
}

#[test]
fn nothing_takes_no_block() {
    let want = vec![
        bytes(8, &[4, 0, 0, 0, 0, 0, 0, 0]),
        bytes(0, &[0; 8]),
        bytes(16, &[0; 8]),
    ];
    let ty = Ty::Vec { elem: Box::new(Ty::U(4)), elem_size: 4, elem_align: 4, seq: WORDS };
    assert_eq!(writes(&ty, "[]"), format!("{want:?}"));
    let want = vec![
        bytes(8, &[1, 0, 0, 0, 0, 0, 0, 0]),
        bytes(0, &[0; 8]),
        bytes(16, &[0; 8]),
    ];
    assert_eq!(writes(&Ty::Str(WORDS), "\"\""), format!("{want:?}"));
}

#[test]
fn an_empty_option_is_zeros_and_its_discriminant() {
    let ty = Ty::Opt {
        disc_off: 0,
        disc_size: 1,
        none_discr: 2,
        some_discr: None,
        payload_off: 0,
        size: 1,
        inner: Box::new(Ty::Bool),
    };
    let want = vec![Op::Zero { block: Block::Dest, off: 0, len: 1 }, bytes(0, &[2])];
    assert_eq!(writes(&ty, "null"), format!("{want:?}"));
    assert_eq!(writes(&ty, "true"), format!("{:?}", vec![bytes(0, &[1])]));
}

#[test]
fn every_reason_not_to_bind() {
    let one = Ty::Struct { name: "S".to_string(), fields: vec![field("a", 0, Ty::U(4))] };
    assert!(matches!(error(&one, "{}"), BindError::MissingKey { key, name } if key == "a" && name == "S"));
    assert!(matches!(error(&Ty::Tuple { fields: vec![] }, "1"), BindError::NotArray));
    assert!(matches!(error(&Ty::Str(WORDS), "1"), BindError::NotString));
    assert!(matches!(error(&Ty::U(4), "-1"), BindError::NotInteger));
    assert!(matches!(error(&Ty::F64, "true"), BindError::NotNumber));
    assert!(matches!(error(&Ty::U(17), "1"), BindError::Width));
    let odd = Ty::Boxed { inner: Box::new(Ty::U(1)), size: 3, align: 3 };
    assert!(matches!(error(&odd, "1"), BindError::Layout));
    let far = Ty::Str(SeqLayout { ptr_off: usize::MAX, cap_off: 0, len_off: 8 });
    let outer = Ty::Struct { name: "S".to_string(), fields: vec![field("a", 1, far)] };
    assert!(matches!(error(&outer, "{\"a\": \"x\"}"), BindError::Offset));
    let site = Site { unit: 0, off: 1 };
    assert!(matches!(error(&Ty::Ref(site), "1"), BindError::Unbound));
    let round = Ty::Rec { site, body: Box::new(Ty::Ref(site)) };
    assert!(matches!(error(&round, "1"), BindError::Endless));
    let map = Ty::BTreeMap {
        key: Box::new(Ty::Str(WORDS)),
        key_size: 24,
        val: Box::new(Ty::U(8)),
        val_size: 8,
        new_at: 1,
        insert: 2,
    };
    assert!(matches!(error(&map, "{}"), BindError::Tree));
    assert!(matches!(error(&Ty::Unknown("x".to_string()), "1"), BindError::Unknown(w) if w == "x"));
}

#[test]
fn surplus_items_and_fields_of_a_tuple_are_passed_over() {
    let ty = Ty::Tuple { fields: vec![field("__0", 0, Ty::U(1)), field("__1", 1, Ty::U(1))] };
    assert_eq!(writes(&ty, "[7]"), format!("{:?}", vec![bytes(0, &[7])]));
    assert_eq!(writes(&ty, "[7, 8, 9]"), format!("{:?}", vec![bytes(0, &[7]), bytes(1, &[8])]));
}
