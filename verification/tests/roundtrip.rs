//! Documents laid out in memory and read back: by the interpreter, whose writes
//! are done on a model of memory, and by compiled code, which is run on it.
use bilbo::interp::{run, Block, Op};
use bilbo::ir::{Args, Cc, FuncIr, Inst, Shim, Target, Term, Value};
use bilbo::json::{parse, Json};
use bilbo::parser::Code;
use bilbo::plan::{FieldTy, SeqLayout, Site, Ty};
use bilbo::text::first_of;
use bilbo::{binder, parser, scan};
use serde_json::Value as Want;

/// Memory, from address zero on; what is handed out begins at 4096.
struct Memory {
    bytes: Vec<u8>,
    /// What has been moved into each map: the places of a key and a value. A map
    /// itself holds its number.
    maps: Vec<Vec<(u64, u64)>>,
}

impl Memory {
    fn new() -> Memory {
        Memory { bytes: vec![0; 4096], maps: vec![] }
    }

    /// A block filled with a pattern, so that what is not written shows.
    fn reserve(&mut self, size: u64, align: u64) -> u64 {
        if size == 0 {
            return align.max(1);
        }
        let align = align.max(1) as usize;
        while self.bytes.len() % align != 0 {
            self.bytes.push(0xEE);
        }
        let at = self.bytes.len();
        self.bytes.resize(at + size as usize, 0xA5);
        // Something between blocks.
        self.bytes.extend_from_slice(&[0xEE; 8]);
        at as u64
    }

    fn put(&mut self, at: u64, bytes: &[u8]) {
        self.bytes[at as usize..at as usize + bytes.len()].copy_from_slice(bytes);
    }

    fn copy(&mut self, bytes: &[u8]) -> u64 {
        let at = self.reserve(bytes.len() as u64, 1);
        self.put(at, bytes);
        at
    }

    fn get(&self, at: u64, n: u64) -> &[u8] {
        &self.bytes[at as usize..(at + n) as usize]
    }

    fn word(&self, at: u64, n: u64) -> u64 {
        let mut out = [0u8; 8];
        out[..n as usize].copy_from_slice(self.get(at, n));
        u64::from_le_bytes(out)
    }
}

/// Does the writes that the interpreter lists.
fn apply(mem: &mut Memory, dest: u64, ops: &[Op]) {
    let mut heap: Vec<u64> = Vec::new();
    let place = |heap: &Vec<u64>, block: Block, off: u64| match block {
        Block::Dest => dest + off,
        Block::Heap(k) => heap[k] + off,
        Block::Nowhere(align) => align + off,
    };
    for op in ops {
        let mut made = 0;
        match op {
            Op::Alloc { size, align } => made = mem.reserve(*size, *align),
            Op::Zero { block, off, len } => {
                let at = place(&heap, *block, *off);
                mem.put(at, &vec![0; *len as usize]);
            }
            Op::Bytes { block, off, bytes } => {
                let at = place(&heap, *block, *off);
                mem.put(at, bytes);
            }
            Op::Float { block, off, text, width } => {
                let at = place(&heap, *block, *off);
                let x: f64 = text.parse().unwrap();
                if *width == 4 {
                    mem.put(at, &(x as f32).to_le_bytes());
                } else {
                    mem.put(at, &x.to_le_bytes());
                }
            }
            Op::Ptr { block, off, to } => {
                let at = place(&heap, *block, *off);
                let to = heap[*to];
                mem.put(at, &to.to_le_bytes());
            }
        }
        heap.push(made);
    }
}

/// Runs compiled code.
struct Machine<'a> {
    mem: Memory,
    funcs: &'a [FuncIr],
    nodes: Vec<&'a Json>,
}

impl<'a> Machine<'a> {
    fn shim(&mut self, shim: Shim, a: &[u64]) -> u64 {
        match shim {
            Shim::ObjGet => {
                let key = String::from_utf8(self.mem.get(a[1], a[2]).to_vec()).unwrap();
                let node = self.nodes[a[0] as usize];
                self.nodes.push(node.get(&key).expect("missing key"));
                self.nodes.len() as u64 - 1
            }
            Shim::ArrLen => match self.nodes[a[0] as usize] {
                Json::Array(items) => items.len() as u64,
                other => panic!("not an array: {other:?}"),
            },
            Shim::ArrGet => match self.nodes[a[0] as usize] {
                Json::Array(items) => {
                    self.nodes.push(&items[a[1] as usize]);
                    self.nodes.len() as u64 - 1
                }
                other => panic!("not an array: {other:?}"),
            },
            Shim::AsU64 => self.nodes[a[0] as usize].as_u128() as u64,
            Shim::AsI64 => self.nodes[a[0] as usize].as_i128() as u64,
            Shim::AsF64 => match self.nodes[a[0] as usize] {
                Json::Num(text) => text.parse::<f64>().unwrap().to_bits(),
                other => panic!("not a number: {other:?}"),
            },
            Shim::AsBool => matches!(self.nodes[a[0] as usize], Json::Bool(true)) as u64,
            Shim::AsChar => self.nodes[a[0] as usize].as_str().chars().next().unwrap_or('\0') as u64,
            Shim::StrPtr => {
                let s = self.nodes[a[0] as usize].as_str().to_string();
                self.mem.copy(s.as_bytes())
            }
            Shim::StrLen => self.nodes[a[0] as usize].as_str().len() as u64,
            Shim::Dup => {
                if a[1] == 0 {
                    1
                } else {
                    let bytes = self.mem.get(a[0], a[1]).to_vec();
                    self.mem.copy(&bytes)
                }
            }
            Shim::Alloc => self.mem.reserve(a[0], a[1]),
            Shim::Skip => a[0] + scan::rt_skip(self.mem.get(a[0], a[1] - a[0]), 0) as u64,
            Shim::CharAt => first_of(self.mem.get(a[0], a[1])).unwrap() as u64,
            Shim::F64v => {
                let input = self.mem.get(a[0], a[1] - a[0]).to_vec();
                let (from, to) = scan::number_span(&input, 0);
                let text = String::from_utf8(input[from..to].to_vec()).unwrap();
                let x: f64 = text.parse().unwrap_or(0.0);
                self.mem.put(a[2], &x.to_bits().to_le_bytes());
                a[0] + to as u64
            }
        }
    }

    fn call(&mut self, f: &FuncIr, args: &[u64]) -> u64 {
        let mut params: Vec<Vec<u64>> = f.blocks.iter().map(|b| vec![0; b.params]).collect();
        let mut insts: Vec<Vec<u64>> = f.blocks.iter().map(|b| vec![0; b.insts.len()]).collect();
        params[0] = args.to_vec();
        let scratch = self.mem.reserve(16, 8);
        let mut at = 0;
        loop {
            for k in 0..f.blocks[at].insts.len() {
                let get = |v: Value| match v {
                    Value::Param(b, p) => params[b][p],
                    Value::Inst(b, k) => insts[b][k],
                };
                let test = |cc: Cc, x: u64, y: u64| match cc {
                    Cc::Equal => (x == y) as u64,
                    Cc::Ult => (x < y) as u64,
                    Cc::Uge => (x >= y) as u64,
                };
                let r = match f.blocks[at].insts[k] {
                    Inst::Iconst(v) => v as u64,
                    Inst::False => 0,
                    Inst::Key(k) => self.mem.copy(f.keys[k].as_bytes()),
                    Inst::Scratch => scratch,
                    Inst::Iadd(x, y) => get(x).wrapping_add(get(y)),
                    Inst::Isub(x, y) => get(x).wrapping_sub(get(y)),
                    Inst::Imul(x, y) => get(x).wrapping_mul(get(y)),
                    Inst::Bor(x, y) => get(x) | get(y),
                    Inst::Band(x, y) => get(x) & get(y),
                    Inst::IaddImm(x, v) => get(x).wrapping_add(v as u64),
                    Inst::ImulImm(x, v) => get(x).wrapping_mul(v as u64),
                    Inst::Ineg(x) => get(x).wrapping_neg(),
                    Inst::Test(cc, x, y) => test(cc, get(x), get(y)),
                    Inst::TestImm(cc, x, v) => test(cc, get(x), v as u64),
                    Inst::Select(c, x, y) => {
                        if get(c) != 0 {
                            get(x)
                        } else {
                            get(y)
                        }
                    }
                    Inst::Uextend(x) => get(x) & 0xFF,
                    Inst::Ireduce(n, x) => get(x) & ((1u64 << (8 * n as u32)) - 1),
                    Inst::Load { width, addr, off } => self.mem.word(get(addr) + off, width as u64),
                    Inst::Store { width, val, addr, off } => {
                        let bytes = get(val).to_le_bytes();
                        self.mem.put(get(addr) + off, &bytes[..width as usize]);
                        0
                    }
                    Inst::MapNew { at, dst } => {
                        assert_eq!(get(at), NEW_AT);
                        let n = self.mem.maps.len() as u64;
                        self.mem.maps.push(vec![]);
                        self.mem.put(get(dst), &[n.to_le_bytes(), [0; 8], [0; 8]].concat());
                        0
                    }
                    Inst::MapInsert { at, dst, key, val } => {
                        assert_eq!(get(at), INSERT);
                        assert!(get(key) % 16 == 0 && get(val) % 16 == 0);
                        let n = self.mem.word(get(dst), 8);
                        self.mem.maps[n as usize].push((get(key), get(val)));
                        0
                    }
                    Inst::Bitcast(x) => get(x),
                    Inst::Fdemote(x) => (f64::from_bits(get(x)) as f32).to_bits() as u64,
                    Inst::Call(shim, args) => {
                        let args = list(args).into_iter().map(get).collect::<Vec<_>>();
                        self.shim(shim, &args)
                    }
                    Inst::CallFn { func, dst, cur, end, sc } => {
                        let args = [get(dst), get(cur), get(end), get(sc)];
                        let funcs = self.funcs;
                        self.call(&funcs[func], &args)
                    }
                };
                insts[at][k] = r;
            }
            let get = |v: Value| match v {
                Value::Param(b, p) => params[b][p],
                Value::Inst(b, k) => insts[b][k],
            };
            let to: Target = match f.blocks[at].term.unwrap() {
                Term::Jump(to) => to,
                Term::Brif(c, yes, no) => {
                    if get(c) != 0 {
                        yes
                    } else {
                        no
                    }
                }
                Term::Return(args) => {
                    return list(args).into_iter().map(get).next().unwrap_or(0);
                }
            };
            let vals = list(to.args).into_iter().map(get).collect::<Vec<_>>();
            assert_eq!(vals.len(), f.blocks[to.block].params);
            params[to.block] = vals;
            at = to.block;
        }
    }
}

fn list(args: Args) -> Vec<Value> {
    match args {
        Args::Zero => vec![],
        Args::One(a) => vec![a],
        Args::Two(a, b) => vec![a, b],
        Args::Three(a, b, c) => vec![a, b, c],
    }
}

/// Reads a value back.
fn read(mem: &Memory, at: u64, ty: &Ty, env: &mut Vec<(Site, Ty)>) -> Want {
    match ty {
        Ty::Bool => Want::from(mem.word(at, 1) == 1),
        Ty::Char => Want::from(char::from_u32(mem.word(at, 4) as u32).unwrap().to_string()),
        Ty::U(n) => Want::from(mem.word(at, *n as u64)),
        Ty::I(n) => {
            let shift = 64 - 8 * *n as u32;
            Want::from(((mem.word(at, *n as u64) << shift) as i64) >> shift)
        }
        Ty::F32 => Want::from(f32::from_bits(mem.word(at, 4) as u32) as f64),
        Ty::F64 => Want::from(f64::from_bits(mem.word(at, 8))),
        Ty::Unit => Want::Null,
        Ty::Struct { fields, .. } => {
            let mut out = serde_json::Map::new();
            for f in fields {
                out.insert(f.name.clone(), read(mem, at + f.offset as u64, &f.ty, env));
            }
            Want::Object(out)
        }
        Ty::Tuple { fields } => {
            Want::Array(fields.iter().map(|f| read(mem, at + f.offset as u64, &f.ty, env)).collect())
        }
        Ty::Str(seq) => {
            let ptr = mem.word(at + seq.ptr_off as u64, 8);
            let len = mem.word(at + seq.len_off as u64, 8);
            assert_eq!(mem.word(at + seq.cap_off as u64, 8), len);
            text(mem, ptr, len)
        }
        Ty::StrRef { ptr_off, len_off } => {
            let ptr = mem.word(at + *ptr_off as u64, 8);
            let len = mem.word(at + *len_off as u64, 8);
            text(mem, ptr, len)
        }
        Ty::Vec { elem, elem_size, elem_align, seq } => {
            let ptr = mem.word(at + seq.ptr_off as u64, 8);
            let len = mem.word(at + seq.len_off as u64, 8);
            assert_eq!(mem.word(at + seq.cap_off as u64, 8), len);
            assert_eq!(ptr % (*elem_align).max(1), 0);
            Want::Array((0..len).map(|i| read(mem, ptr + i * elem_size, elem, env)).collect())
        }
        Ty::Opt { disc_off, disc_size, none_discr, some_discr, payload_off, inner, .. } => {
            let disc = mem.word(at + *disc_off as u64, *disc_size as u64);
            if disc as u128 == *none_discr {
                Want::Null
            } else {
                if let Some(some) = some_discr {
                    assert_eq!(disc as u128, *some);
                }
                read(mem, at + *payload_off as u64, inner, env)
            }
        }
        Ty::BTreeMap { key, val, .. } => {
            let mut out = serde_json::Map::new();
            for (k, v) in &mem.maps[mem.word(at, 8) as usize] {
                let name = read(mem, *k, key, env);
                out.insert(name.as_str().unwrap().to_string(), read(mem, *v, val, env));
            }
            Want::Object(out)
        }
        Ty::Boxed { inner, .. } => read(mem, mem.word(at, 8), inner, env),
        Ty::Rec { site, body } => {
            env.push((*site, same(body)));
            let out = read(mem, at, body, env);
            env.pop();
            out
        }
        Ty::Ref(site) => {
            let k = env.iter().rposition(|(s, _)| s == site).unwrap();
            let body = same(&env[k].1);
            read(mem, at, &body, env)
        }
        other => panic!("not read here: {other:?}"),
    }
}

fn text(mem: &Memory, ptr: u64, len: u64) -> Want {
    Want::from(String::from_utf8(mem.get(ptr, len).to_vec()).unwrap())
}

/// The same type once more.
fn same(ty: &Ty) -> Ty {
    match ty {
        Ty::Struct { name, fields } => Ty::Struct { name: name.clone(), fields: same_fields(fields) },
        Ty::Opt { disc_off, disc_size, none_discr, some_discr, payload_off, size, inner } => Ty::Opt {
            disc_off: *disc_off,
            disc_size: *disc_size,
            none_discr: *none_discr,
            some_discr: *some_discr,
            payload_off: *payload_off,
            size: *size,
            inner: Box::new(same(inner)),
        },
        Ty::Boxed { inner, size, align } => {
            Ty::Boxed { inner: Box::new(same(inner)), size: *size, align: *align }
        }
        Ty::Ref(site) => Ty::Ref(*site),
        Ty::U(n) => Ty::U(*n),
        Ty::I(n) => Ty::I(*n),
        Ty::Str(seq) => Ty::Str(*seq),
        other => panic!("not copied here: {other:?}"),
    }
}

fn same_fields(fields: &[FieldTy]) -> Vec<FieldTy> {
    fields
        .iter()
        .map(|f| FieldTy { name: f.name.clone(), offset: f.offset, ty: same(&f.ty) })
        .collect()
}

fn interpreted(ty: &Ty, size: u64, json: &str) -> Want {
    let value = parse(json);
    let ops = run(ty, &value).unwrap();
    let mut mem = Memory::new();
    let dest = mem.reserve(size, 8);
    apply(&mut mem, dest, &ops);
    read(&mem, dest, ty, &mut Vec::new())
}

fn bound(ty: &Ty, size: u64, json: &str) -> Want {
    let value = parse(json);
    let f = binder::code(ty).unwrap();
    let mut m = Machine { mem: Memory::new(), funcs: &[], nodes: vec![&value] };
    let dest = m.mem.reserve(size, 8);
    m.call(&f, &[dest, 0]);
    read(&m.mem, dest, ty, &mut Vec::new())
}

fn parsed(ty: &Ty, size: u64, json: &str) -> Want {
    let Code { main, funcs } = parser::code(ty).unwrap();
    let mut m = Machine { mem: Memory::new(), funcs: &funcs, nodes: vec![] };
    let dest = m.mem.reserve(size, 8);
    let input = m.mem.copy(json.as_bytes());
    m.call(&main, &[dest, input, json.len() as u64]);
    read(&m.mem, dest, ty, &mut Vec::new())
}

const WORDS: SeqLayout = SeqLayout { ptr_off: 8, cap_off: 0, len_off: 16 };

const NEW_AT: u64 = 0x5501;

const INSERT: u64 = 0x5502;

fn map_of(val: Ty, val_size: u64) -> Ty {
    Ty::BTreeMap {
        key: Box::new(Ty::Str(WORDS)),
        key_size: 24,
        val: Box::new(val),
        val_size,
        new_at: NEW_AT,
        insert: INSERT,
    }
}

fn field(name: &str, offset: usize, ty: Ty) -> FieldTy {
    FieldTy { name: name.to_string(), offset, ty }
}

fn list_of(elem: Ty, size: u64, align: u64) -> Ty {
    Ty::Vec { elem: Box::new(elem), elem_size: size, elem_align: align, seq: WORDS }
}

/// `struct Endpoint { host: String, port: u16, tags: Vec<String> }`
fn endpoint() -> Ty {
    Ty::Struct {
        name: "Endpoint".to_string(),
        fields: vec![
            field("host", 0, Ty::Str(WORDS)),
            field("port", 48, Ty::U(2)),
            field("tags", 24, list_of(Ty::Str(WORDS), 24, 8)),
        ],
    }
}

/// `struct Inner { x: u32, label: String }`
fn inner() -> Ty {
    Ty::Struct {
        name: "Inner".to_string(),
        fields: vec![field("x", 24, Ty::U(4)), field("label", 0, Ty::Str(WORDS))],
    }
}

/// `Option<u64>`, with its discriminant beside it, and `Option<String>`, which is
/// none where the capacity is out of range.
fn tagged(payload: Ty) -> Ty {
    Ty::Opt {
        disc_off: 0,
        disc_size: 8,
        none_discr: 0,
        some_discr: Some(1),
        payload_off: 8,
        size: 16,
        inner: Box::new(payload),
    }
}

fn niche() -> Ty {
    Ty::Opt {
        disc_off: 0,
        disc_size: 8,
        none_discr: 0x8000_0000_0000_0000,
        some_discr: None,
        payload_off: 0,
        size: 24,
        inner: Box::new(Ty::Str(WORDS)),
    }
}

fn config() -> Ty {
    Ty::Struct {
        name: "Config".to_string(),
        fields: vec![
            field("name", 0, Ty::Str(WORDS)),
            field("retries", 24, Ty::I(4)),
            field("timeout", 32, tagged(Ty::U(8))),
            field("fallback", 48, niche()),
            field("inner", 72, inner()),
            field("boxed", 104, Ty::Boxed { inner: Box::new(inner()), size: 32, align: 8 }),
            field("list", 112, list_of(Ty::U(4), 4, 4)),
        ],
    }
}

/// `struct Node { val: u64, next: Option<Box<Node>> }`
fn node() -> Ty {
    let site = Site { unit: 0, off: 17 };
    let link = Ty::Opt {
        disc_off: 0,
        disc_size: 8,
        none_discr: 0,
        some_discr: None,
        payload_off: 0,
        size: 8,
        inner: Box::new(Ty::Boxed { inner: Box::new(Ty::Ref(site)), size: 16, align: 8 }),
    };
    Ty::Rec {
        site,
        body: Box::new(Ty::Struct {
            name: "Node".to_string(),
            fields: vec![field("val", 0, Ty::U(8)), field("next", 8, link)],
        }),
    }
}

fn want(json: &str) -> Want {
    serde_json::from_str(json).unwrap()
}

#[test]
fn interp_endpoint_fields() {
    let json = r#"{ "host": "rustweek.org", "port": 443,
                    "tags": ["conf", "rust", "🦀"] }"#;
    let e = interpreted(&endpoint(), 56, json);
    assert_eq!(e["host"], "rustweek.org");
    assert_eq!(e["port"], 443);
    assert_eq!(e["tags"], Want::from(vec!["conf", "rust", "🦀"]));
}

#[test]
fn jit_endpoint_fields() {
    let json = r#"{ "host": "jit.example", "port": 9001,
                    "tags": ["a", "b"] }"#;
    let e = parsed(&endpoint(), 56, json);
    assert_eq!(e["host"], "jit.example");
    assert_eq!(e["port"], 9001);
    assert_eq!(e["tags"], Want::from(vec!["a", "b"]));
}

const CONFIG_JSON: &str = r#"
{
  "name": "svc",
  "retries": -3,
  "timeout": 5000,
  "fallback": null,
  "inner": { "x": 7, "label": "deep" },
  "boxed": { "x": 42, "label": "heap" },
  "list": [1, 2, 3, 4]
}
"#;

#[test]
fn interp_matches_serde_json() {
    assert_eq!(interpreted(&config(), 136, CONFIG_JSON), want(CONFIG_JSON));
}

#[test]
fn jit_matches_serde_json() {
    assert_eq!(parsed(&config(), 136, CONFIG_JSON), want(CONFIG_JSON));
}

#[test]
fn jit_recursive_boxed_matches_serde_json() {
    let json = r#"{ "val": 1,
                    "next": { "val": 2,
                              "next": { "val": 3, "next": null } } }"#;
    let got = parsed(&node(), 16, json);
    assert_eq!(got, want(json));
    assert_eq!(got["next"]["next"]["val"], 3);
}

#[test]
fn interp_recursive_boxed_matches_serde_json() {
    let json = r#"{ "val": 1, "next": { "val": 2, "next": { "val": 3, "next": null } } }"#;
    assert_eq!(interpreted(&node(), 16, json), want(json));
}

#[test]
fn the_demo_document_with_its_trailing_comma() {
    let json = r#"
        {
          "host": "rustweek.org",
          "port": 443,
          "tags": ["conf", "rust", "🦀"],
        }
    "#;
    let full = r#"{ "host": "rustweek.org", "port": 443, "tags": ["conf", "rust", "🦀"] }"#;
    assert_eq!(interpreted(&endpoint(), 56, json), want(full));
    assert_eq!(bound(&endpoint(), 56, json), want(full));
    assert_eq!(parsed(&endpoint(), 56, json), want(full));
}

#[test]
fn a_binder_does_what_the_interpreter_does() {
    let scalars = Ty::Struct {
        name: "Scalars".to_string(),
        fields: vec![
            field("b", 0, Ty::Bool),
            field("c", 4, Ty::Char),
            field("u1", 8, Ty::U(1)),
            field("i2", 10, Ty::I(2)),
            field("u4", 12, Ty::U(4)),
            field("i8", 16, Ty::I(8)),
            field("f4", 24, Ty::F32),
            field("f8", 32, Ty::F64),
            field("s", 40, Ty::StrRef { ptr_off: 0, len_off: 8 }),
            field("none", 56, list_of(Ty::U(8), 8, 8)),
        ],
    };
    let json = r#"{"b": true, "c": "🦀", "u1": 255, "i2": -2, "u4": 4000000000, "i8": -9000000000,
                   "f4": 0.5, "f8": -1.25e3, "s": "out", "none": []}"#;
    assert_eq!(interpreted(&scalars, 80, json), want(json));
    assert_eq!(bound(&scalars, 80, json), want(json));
    assert_eq!(parsed(&scalars, 80, json), want(json));
    for c in ["x", "é", "€"] {
        let other = json.replace("🦀", c);
        assert_eq!(parsed(&scalars, 80, &other), want(&other));
    }
}

#[test]
fn what_takes_up_nothing_is_counted() {
    let marker = || Ty::Struct { name: "Marker".to_string(), fields: vec![] };
    let marks = list_of(marker(), 0, 4);
    for json in ["[]", "[{}]", "[{}, {}, {}]"] {
        assert_eq!(interpreted(&marks, 24, json), want(json));
        assert_eq!(bound(&marks, 24, json), want(json));
        assert_eq!(parsed(&marks, 24, json), want(json));
    }
    assert_eq!(parsed(&list_of(Ty::Unit, 0, 1), 24, "[null, 7, \"x\"]"), want("[null, null, null]"));
    let boxed = Ty::Boxed { inner: Box::new(marker()), size: 0, align: 1 };
    assert_eq!(interpreted(&boxed, 8, "{}"), want("{}"));
    assert_eq!(parsed(&boxed, 8, "{}"), want("{}"));
}

#[test]
fn members_in_any_order_and_unknown_ones_between() {
    let json = r#"{"x": {"deep": ["]", {"}": 1}]}, "port": 1, "tags": [], "host": "", "y": -1.5e3}"#;
    let all = want(r#"{"host": "", "port": 1, "tags": []}"#);
    assert_eq!(interpreted(&endpoint(), 56, json), all);
    assert_eq!(bound(&endpoint(), 56, json), all);
    assert_eq!(parsed(&endpoint(), 56, json), all);
}

#[test]
fn an_absent_key_means_none() {
    let ty = Ty::Struct {
        name: "Maybe".to_string(),
        fields: vec![field("a", 0, tagged(Ty::U(8))), field("b", 16, niche()), field("c", 40, Ty::U(8))],
    };
    let all = want(r#"{"a": null, "b": null, "c": 5}"#);
    assert_eq!(interpreted(&ty, 48, r#"{"c": 5}"#), all);
    assert_eq!(parsed(&ty, 48, r#"{"c": 5}"#), all);
    let some = r#"{"b": "x", "c": 5, "a": 7}"#;
    assert_eq!(interpreted(&ty, 48, some), want(some));
    assert_eq!(parsed(&ty, 48, some), want(some));
}

#[test]
fn tuples_are_bound_by_position() {
    let ty = list_of(
        Ty::Tuple { fields: vec![field("__0", 8, Ty::F64), field("__1", 0, Ty::U(8))] },
        16,
        8,
    );
    let json = "[[0.5, 1], [1.5, 2],[-2.5,3]]";
    assert_eq!(interpreted(&ty, 24, json), want(json));
    assert_eq!(parsed(&ty, 24, json), want(json));
}

#[test]
fn a_unit_takes_a_value_and_writes_nothing() {
    let ty = Ty::Struct {
        name: "Units".to_string(),
        fields: vec![field("u", 0, Ty::Unit), field("n", 0, Ty::U(4))],
    };
    let json = r#"{"u": {"any": [1, "]"]}, "n": 9}"#;
    let all = want(r#"{"u": null, "n": 9}"#);
    assert_eq!(interpreted(&ty, 8, json), all);
    assert_eq!(parsed(&ty, 8, json), all);
}

#[test]
fn lists_of_lists() {
    let ty = list_of(list_of(list_of(Ty::I(2), 2, 2), 24, 8), 24, 8);
    let json = "[[[1,-2],[]],[],[[3]]]";
    assert_eq!(interpreted(&ty, 24, json), want(json));
    assert_eq!(bound(&ty, 24, json), want(json));
    assert_eq!(parsed(&ty, 24, json), want(json));
}

#[test]
fn objects_are_moved_into_maps() {
    let ty = map_of(Ty::U(4), 4);
    for json in ["{}", " { } ", r#"{"a": 1}"#, r#"{"b" : 7 , "a":4294967295,"":0,}"#] {
        let strict = json.replace(",}", "}");
        assert_eq!(parsed(&ty, 24, json), want(&strict));
    }
    // The last of two members with one key stays.
    assert_eq!(parsed(&ty, 24, r#"{"a": 1, "a": 2}"#), want(r#"{"a": 2}"#));
}

#[test]
fn maps_hold_values_of_any_type() {
    let event = Ty::Struct {
        name: "Event".to_string(),
        fields: vec![
            field("description", 0, niche()),
            field("id", 24, Ty::U(4)),
            field("topics", 32, list_of(Ty::U(4), 4, 4)),
        ],
    };
    let ty = Ty::Struct {
        name: "Catalog".to_string(),
        fields: vec![
            field("areas", 0, map_of(Ty::Str(WORDS), 24)),
            field("events", 24, map_of(event, 56)),
            field("topics", 48, map_of(map_of(Ty::Unit, 0), 24)),
            field("n", 72, Ty::U(1)),
        ],
    };
    let json = r#"{
        "events": {
            "138586341": {"description": null, "id": 138586341, "topics": [1, 2]},
            "138586345": {"topics": [], "id": 138586345, "description": "of strings", "logo": {"x": ["}"]}}
        },
        "areas": {"205705993": "Arriere-scene", "205705994": ""},
        "n": 3,
        "topics": {"one": {"u": 1, "v": "w"}, "none": {}}
    }"#;
    let all = r#"{
        "events": {
            "138586341": {"description": null, "id": 138586341, "topics": [1, 2]},
            "138586345": {"topics": [], "id": 138586345, "description": "of strings"}
        },
        "areas": {"205705993": "Arriere-scene", "205705994": ""},
        "n": 3,
        "topics": {"one": {"u": null, "v": null}, "none": {}}
    }"#;
    assert_eq!(parsed(&ty, 80, json), want(all));
}

#[test]
fn keys_other_than_strings_are_refused() {
    let ty = Ty::BTreeMap {
        key: Box::new(Ty::U(8)),
        key_size: 8,
        val: Box::new(Ty::U(8)),
        val_size: 8,
        new_at: NEW_AT,
        insert: INSERT,
    };
    assert!(parser::code(&ty).is_err());
    assert!(parser::code(&map_of(Ty::Unknown("dyn Any".to_string()), 8)).is_err());
}
