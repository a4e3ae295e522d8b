use bilbo::binder::CompileError;
use bilbo::jit::{compile, compile_parser, Hooks, Jit, JitError};
use bilbo::plan::{FieldTy, SeqLayout, Site, Ty};

/// Addresses that are never called here: compiling takes none of them up.
fn hooks() -> Hooks {
    Hooks {
        obj_get: 0x1000,
        arr_len: 0x1010,
        arr_get: 0x1020,
        as_u64: 0x1030,
        as_i64: 0x1040,
        as_f64: 0x1050,
        as_bool: 0x1060,
        as_char: 0x1070,
        str_ptr: 0x1080,
        str_len: 0x1090,
        dup: 0x10a0,
        alloc: 0x10b0,
        skip: 0x10c0,
        f64v: 0x10d0,
        char_at: 0x10e0,
    }
}

const WORDS: SeqLayout = SeqLayout { ptr_off: 8, cap_off: 0, len_off: 16 };

fn field(name: &str, offset: usize, ty: Ty) -> FieldTy {
    FieldTy { name: name.to_string(), offset, ty }
}

fn list(elem: Ty, size: u64, align: u64) -> Ty {
    Ty::Vec { elem: Box::new(elem), elem_size: size, elem_align: align, seq: WORDS }
}

fn map(key: Ty, insert: u64) -> Ty {
    Ty::BTreeMap {
        key: Box::new(key),
        key_size: 24,
        val: Box::new(list(Ty::U(4), 4, 4)),
        val_size: 24,
        new_at: 0x2000,
        insert,
    }
}

fn both() -> Vec<Ty> {
    let mut out = vec![Ty::Bool, Ty::Char, Ty::F32, Ty::F64];
    for n in [1u8, 2, 4, 8] {
        out.push(Ty::U(n));
        out.push(Ty::I(n));
    }
    out.push(Ty::Str(WORDS));
    out.push(Ty::StrRef { ptr_off: 0, len_off: 8 });
    out.push(list(Ty::U(4), 4, 4));
    out.push(list(list(Ty::Str(WORDS), 24, 8), 24, 8));
    out.push(Ty::Struct {
        name: "Endpoint".to_string(),
        fields: vec![
            field("host", 0, Ty::Str(WORDS)),
            field("port", 48, Ty::U(2)),
            field("tags", 24, list(Ty::Str(WORDS), 24, 8)),
        ],
    });
    out
}

fn some_and_none(inner: Ty) -> Ty {
    Ty::Opt {
        disc_off: 0,
        disc_size: 8,
        none_discr: 0,
        some_discr: Some(1),
        payload_off: 8,
        size: 16,
        inner: Box::new(inner),
    }
}

fn node() -> Ty {
    let site = Site { unit: 0, off: 17 };
    let link = Ty::Opt {
        disc_off: 0,
        disc_size: 8,
        none_discr: 0,
        some_discr: None,
        payload_off: 0,
        size: 8,
        inner: Box::new(Ty::Boxed { inner: Box::new(Ty::Ref(site)), size: 16, align: 8 }),
    };
    Ty::Rec {
        site,
        body: Box::new(Ty::Struct {
            name: "Node".to_string(),
            fields: vec![field("val", 0, Ty::U(8)), field("next", 8, link)],
        }),
    }
}

#[test]
fn binders_are_compiled_for_every_type_that_is_not_refused() {
    let mut jit = Jit::new(hooks()).unwrap();
    for ty in both() {
        let c = compile(&mut jit, &ty);
        assert!(c.is_ok(), "{ty:?}: {c:?}");
        assert!(c.unwrap().addr != 0 && c.unwrap().len > 0);
    }
}

#[test]
fn parsers_are_compiled_for_every_type_that_is_not_refused() {
    let mut jit = Jit::new(hooks()).unwrap();
    let mut types = both();
    types.push(Ty::Unit);
    types.push(Ty::Tuple { fields: vec![field("__0", 0, Ty::F64), field("__1", 8, Ty::Bool)] });
    types.push(some_and_none(Ty::U(8)));
    types.push(some_and_none(Ty::F64));
    types.push(Ty::Boxed { inner: Box::new(Ty::I(4)), size: 4, align: 4 });
    types.push(node());
    types.push(list(node(), 16, 8));
    types.push(list(Ty::Unit, 0, 1));
    types.push(Ty::Boxed { inner: Box::new(Ty::Unit), size: 0, align: 1 });
    for ty in types {
        let c = compile_parser(&mut jit, &ty);
        assert!(c.is_ok(), "{ty:?}: {c:?}");
        assert!(c.unwrap().addr != 0 && c.unwrap().len > 0);
    }
}

#[test]
fn every_function_has_code_of_its_own() {
    let mut jit = Jit::new(hooks()).unwrap();
    let a = compile(&mut jit, &Ty::Bool).unwrap();
    let b = compile_parser(&mut jit, &Ty::Bool).unwrap();
    let c = compile(&mut jit, &Ty::Bool).unwrap();
    assert!(a.func != b.func && b.func != c.func && a.func != c.func);
    assert!(a.addr != b.addr && b.addr != c.addr && a.addr != c.addr);
}

#[test]
fn a_compiler_outlives_a_refused_type() {
    let mut jit = Jit::new(hooks()).unwrap();
    let unknown = Ty::Unknown("dyn Any".to_string());
    assert_eq!(compile(&mut jit, &unknown), Err(JitError::Type(CompileError::Unsupported)));
    assert_eq!(compile_parser(&mut jit, &unknown), Err(JitError::Type(CompileError::Unsupported)));
    assert!(compile(&mut jit, &Ty::U(8)).is_ok());
    assert!(compile_parser(&mut jit, &Ty::U(8)).is_ok());
}

#[test]
fn types_without_code_are_refused() {
    let mut jit = Jit::new(hooks()).unwrap();
    let far = SeqLayout { ptr_off: 0x8000_0000, cap_off: 0, len_off: 8 };
    assert_eq!(compile(&mut jit, &Ty::Str(far)), Err(JitError::Type(CompileError::Offset)));
    assert_eq!(compile_parser(&mut jit, &Ty::Str(far)), Err(JitError::Type(CompileError::Offset)));
    assert_eq!(compile(&mut jit, &map(Ty::Str(WORDS), 2)), Err(JitError::Type(CompileError::Unsupported)));
    assert_eq!(
        compile_parser(&mut jit, &map(Ty::U(4), 2)),
        Err(JitError::Type(CompileError::Unsupported)),
    );
    assert_eq!(
        compile_parser(&mut jit, &map(Ty::Str(WORDS), u64::MAX)),
        Err(JitError::Type(CompileError::Offset)),
    );
    let loose = Ty::Ref(Site { unit: 0, off: 3 });
    assert_eq!(compile_parser(&mut jit, &loose), Err(JitError::Type(CompileError::Unbound)));
    assert_eq!(compile(&mut jit, &list(Ty::Unit, 0, 1)), Err(JitError::Type(CompileError::Unsupported)));
}

#[test]
fn a_type_can_be_too_large() {
    let mut jit = Jit::new(hooks()).unwrap();
    let ty = Ty::Struct { name: "Long".to_string(), fields: vec![field(&"k".repeat(3_000_000), 0, Ty::Bool)] };
    assert_eq!(compile(&mut jit, &ty), Err(JitError::Type(CompileError::Large)));
    assert_eq!(compile_parser(&mut jit, &ty), Err(JitError::Type(CompileError::Large)));
}

#[test]
fn parsers_of_maps_are_compiled() {
    let mut jit = Jit::new(hooks()).unwrap();
    let one = compile_parser(&mut jit, &map(Ty::Str(WORDS), 0x2010)).unwrap();
    let two = compile_parser(&mut jit, &list(map(Ty::Str(WORDS), 0x2010), 24, 8)).unwrap();
    assert!(one.addr != two.addr && one.func != two.func);
}

#[test]
fn a_key_is_put_away_once() {
    let mut jit = Jit::new(hooks()).unwrap();
    let (a, at) = jit.leak_key("port");
    assert_eq!(a, b"port");
    assert_eq!(a.as_ptr().addr() as u64, at);
    let (other, elsewhere) = jit.leak_key("pört");
    assert_eq!(other, "pört".as_bytes());
    assert_ne!(elsewhere, at);
    assert_eq!(jit.leak_key("port").1, at);
    // What is compiled in between changes nothing.
    let ty = Ty::Struct { name: "T".to_string(), fields: vec![field("port", 0, Ty::U(2))] };
    compile(&mut jit, &ty).unwrap();
    assert_eq!(jit.leak_key("port").1, at);
}
