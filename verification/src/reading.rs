//! What reading raw JSON as a type leaves in memory: the document that the text
//! writes down, as [`law_read_shows`] says.
use crate::ascii::{CLOSE_BRACE, CLOSE_BRACKET, LOWER_N, LOWER_T, MINUS, PLUS, QUOTE};
use crate::interp::{Block, OpV, Scope};
use crate::json::JsonV;
use crate::memory::{Area, Mem};
use crate::plan::{FieldV, SeqLayout, TyV};
use vstd::prelude::*;

verus! {

// ---------------------------------------------------------------------------
// Which documents are read as a type.
// ---------------------------------------------------------------------------

/// Whether an integer of that many bytes is stored whole.
pub open spec fn whole(n: u8) -> bool {
    n == 1 || n == 2 || n == 4 || n == 8
}

/// Whether no two fields have the same name.
pub open spec fn names_differ(fields: Seq<FieldV>) -> bool {
    forall|j: int, k: int|
        0 <= j < k < fields.len() ==> (#[trigger] fields[j]).name != (#[trigger] fields[k]).name
}

/// Whether no field has two members.
pub open spec fn once(fields: Seq<FieldV>, kvs: Seq<(Seq<char>, JsonV)>) -> bool {
    forall|k: int, a: int, b: int|
        0 <= k < fields.len() && 0 <= a < b < kvs.len() && (#[trigger] kvs[a]).0 == (
        #[trigger] fields[k]).name ==> (#[trigger] kvs[b]).0 != fields[k].name
}

/// Whether a document is one of the values that a type has: the kind of value that
/// the type calls for, with a member for every field that is no `Option`, and none
/// twice; integers of a size that is stored whole.
pub open spec fn suits(ty: TyV, env: Scope, limit: nat, v: JsonV) -> bool
    decreases v, limit, ty, 0nat,
{
    match ty {
        TyV::Bool => v is Bool || v is Null,
        TyV::Char => v is Str,
        TyV::U(n) => v is Num && crate::json::u128_of(v) is Some && whole(n),
        TyV::I(n) => v is Num && crate::json::i128_of(v) is Some && whole(n),
        TyV::F32 => v is Num,
        TyV::F64 => v is Num,
        TyV::Unit => true,
        TyV::Struct { name, fields } => match v {
            JsonV::Object(kvs) => {
                &&& names_differ(fields)
                &&& once(fields, kvs)
                &&& suits_fields(fields, 0, env, v)
            },
            _ => false,
        },
        TyV::Tuple { fields } => match v {
            JsonV::Array(items) => suits_tuple(fields, 0, env, items),
            _ => false,
        },
        TyV::Str(seq) => v is Str,
        TyV::StrRef { ptr_off, len_off } => v is Str,
        TyV::Vec { elem, elem_size, elem_align, seq } => match v {
            JsonV::Array(items) => suits_items(*elem, 0, env, items),
            _ => false,
        },
        TyV::Opt { disc_off, disc_size, none_discr, some_discr, payload_off, size, inner } => v
            == JsonV::Null || suits(*inner, env, limit, v),
        TyV::Boxed { inner, size, align } => suits(*inner, env, limit, v),
        TyV::Rec { site, body } => suits(*body, env.push((site, *body)), limit, v),
        TyV::Ref(site) => match crate::interp::find_site(env, env.len(), site) {
            None => false,
            Some(i) => i < limit && suits(env[i as int].1, env.take((i + 1) as int), i, v),
        },
        TyV::BTreeMap { key, key_size, val, val_size, new_at, insert } => match (*key, v) {
            (TyV::Str(seq), JsonV::Object(kvs)) => suits_entries(*val, env, kvs),
            _ => false,
        },
        TyV::Unknown(what) => false,
    }
}

/// Whether the values of members are values of a type.
pub open spec fn suits_entries(val: TyV, env: Scope, kvs: Seq<(Seq<char>, JsonV)>) -> bool
    decreases kvs, 0nat, val, 0nat,
{
    if kvs.len() == 0 {
        true
    } else {
        proof {
            assert(decreases_to!(kvs => kvs[0]));
            assert(decreases_to!(kvs[0] => kvs[0].1));
        }
        &&& suits(val, env, env.len(), kvs[0].1)
        &&& suits_entries(val, env, kvs.drop_first())
    }
}

/// Whether an object's members are values of the fields from the `k`th on.
pub open spec fn suits_fields(fields: Seq<FieldV>, k: nat, env: Scope, v: JsonV) -> bool
    decreases v, 0nat, fields, fields.len() - k,
{
    if k >= fields.len() {
        true
    } else {
        let f = fields[k as int];
        &&& match crate::json::get_of(v, f.name) {
            Some(sub) => {
                proof {
                    crate::json::lemma_get_of(v, f.name);
                }
                suits(f.ty, env, env.len(), sub)
            },
            None => crate::read::as_option(f.ty, env, env.len()) is Some,
        }
        &&& suits_fields(fields, k + 1, env, v)
    }
}

/// Whether items are values of a tuple's fields from the `k`th on, as far as there
/// are both.
pub open spec fn suits_tuple(fields: Seq<FieldV>, k: nat, env: Scope, items: Seq<JsonV>) -> bool
    decreases items, 0nat, fields, fields.len() - k,
{
    if k >= fields.len() || k >= items.len() {
        true
    } else {
        let f = fields[k as int];
        &&& suits(f.ty, env, env.len(), items[k as int])
        &&& suits_tuple(fields, k + 1, env, items)
    }
}

/// Whether the items from the `k`th on are values of a type.
pub open spec fn suits_items(elem: TyV, k: nat, env: Scope, items: Seq<JsonV>) -> bool
    decreases items, 0nat, elem, items.len() - k,
{
    if k >= items.len() {
        true
    } else {
        &&& suits(elem, env, env.len(), items[k as int])
        &&& suits_items(elem, k + 1, env, items)
    }
}

/// Whether the strings that reading the value at `c` as a type takes over have no
/// escapes.
pub open spec fn verbatim(ty: TyV, env: Scope, limit: nat, d: Seq<u8>, c: int) -> bool
    decreases d.len() - c, limit, ty, 0nat,
{
    let j = crate::json::ws_end(d, c);
    proof {
        crate::json::lemma_ws_end(d, c);
    }
    if !(0 <= c && j < d.len()) {
        true
    } else {
        match ty {
            TyV::Char => crate::written::unescaped(d, j + 1),
            TyV::Str(seq) => crate::written::unescaped(d, j + 1),
            TyV::StrRef { ptr_off, len_off } => crate::written::unescaped(d, j + 1),
            TyV::Struct { name, fields } => verbatim_members(fields, env, d, j + 1),
            TyV::Tuple { fields } => verbatim_tuple(fields, 0, env, d, j + 1),
            TyV::Vec { elem, elem_size, elem_align, seq } => verbatim_items(*elem, env, d, j + 1),
            TyV::Opt { disc_off, disc_size, none_discr, some_discr, payload_off, size, inner } => d[j]
                == LOWER_N || verbatim(*inner, env, limit, d, j),
            TyV::Boxed { inner, size, align } => verbatim(*inner, env, limit, d, c),
            TyV::BTreeMap { key, key_size, val, val_size, new_at, insert } => verbatim_entries(
                *val,
                env,
                d,
                j + 1,
            ),
            TyV::Rec { site, body } => verbatim(*body, env.push((site, *body)), limit, d, c),
            TyV::Ref(site) => match crate::interp::find_site(env, env.len(), site) {
                None => true,
                Some(i) => i < limit ==> verbatim(env[i as int].1, env.take((i + 1) as int), i, d, c),
            },
            _ => true,
        }
    }
}

/// Whether this holds of an object's members from `c` on that there are fields for.
pub open spec fn verbatim_members(fields: Seq<FieldV>, env: Scope, d: Seq<u8>, c: int) -> bool
    decreases d.len() - c, env.len() + 1, fields, 0nat,
{
    let j = crate::json::ws_end(d, c);
    proof {
        crate::json::lemma_ws_end(d, c);
        crate::json::lemma_string_at(d, j);
    }
    if !(0 <= c && j < d.len()) || d[j] == CLOSE_BRACE {
        true
    } else {
        match crate::json::string_at(d, j) {
            None => true,
            Some((key, ke)) => {
                let q = crate::json::ws_end(d, ke);
                proof {
                    crate::json::lemma_ws_end(d, ke);
                    crate::json::lemma_value_at(d, q + 1);
                    crate::json::lemma_ws_end(d, q + 1);
                }
                if q >= d.len() {
                    true
                } else {
                    &&& forall|k: int|
                        0 <= k < fields.len() && (#[trigger] fields[k]).name == key ==> verbatim(
                            fields[k].ty,
                            env,
                            env.len(),
                            d,
                            q + 1,
                        )
                    &&& match crate::json::value_at(d, q + 1) {
                        None => true,
                        Some((val, ve)) => match crate::json::comma_end(d, ve) {
                            None => true,
                            Some(next) => c < next <= d.len() ==> verbatim_members(fields, env, d, next),
                        },
                    }
                }
            },
        }
    }
}

/// Whether this holds of the values of an object's members from `c` on, as values of
/// a type.
pub open spec fn verbatim_entries(val: TyV, env: Scope, d: Seq<u8>, c: int) -> bool
    decreases d.len() - c, env.len() + 1, val, 0nat,
{
    let j = crate::json::ws_end(d, c);
    proof {
        crate::json::lemma_ws_end(d, c);
        crate::json::lemma_string_at(d, j);
    }
    if !(0 <= c && j < d.len()) || d[j] == CLOSE_BRACE {
        true
    } else {
        match crate::json::string_at(d, j) {
            None => true,
            Some((key, ke)) => {
                let q = crate::json::ws_end(d, ke);
                proof {
                    crate::json::lemma_ws_end(d, ke);
                }
                if q >= d.len() {
                    true
                } else {
                    &&& verbatim(val, env, env.len(), d, q + 1)
                    &&& match crate::json::value_at(d, q + 1) {
                        None => true,
                        Some((v, ve)) => match crate::json::comma_end(d, ve) {
                            None => true,
                            Some(next) => c < next <= d.len() ==> verbatim_entries(val, env, d, next),
                        },
                    }
                }
            },
        }
    }
}

/// Whether this holds of an array's items from `c` on, as values of a tuple's fields
/// from the `k`th on.
pub open spec fn verbatim_tuple(fields: Seq<FieldV>, k: nat, env: Scope, d: Seq<u8>, c: int) -> bool
    decreases d.len() - c, env.len() + 1, fields, 0nat,
{
    let j = crate::json::ws_end(d, c);
    proof {
        crate::json::lemma_ws_end(d, c);
    }
    if k >= fields.len() || !(0 <= c && j < d.len()) || d[j] == CLOSE_BRACKET {
        true
    } else {
        &&& verbatim(fields[k as int].ty, env, env.len(), d, j)
        &&& match crate::json::value_at(d, j) {
            None => true,
            Some((val, ve)) => match crate::json::comma_end(d, ve) {
                None => true,
                Some(next) => c < next <= d.len() ==> verbatim_tuple(fields, k + 1, env, d, next),
            },
        }
    }
}

/// Whether this holds of an array's items from `c` on, as values of a type.
pub open spec fn verbatim_items(elem: TyV, env: Scope, d: Seq<u8>, c: int) -> bool
    decreases d.len() - c, env.len() + 1, elem, 0nat,
{
    let j = crate::json::ws_end(d, c);
    proof {
        crate::json::lemma_ws_end(d, c);
    }
    if !(0 <= c && j < d.len()) || d[j] == CLOSE_BRACKET {
        true
    } else {
        &&& verbatim(elem, env, env.len(), d, j)
        &&& match crate::json::value_at(d, j) {
            None => true,
            Some((val, ve)) => match crate::json::comma_end(d, ve) {
                None => true,
                Some(next) => c < next <= d.len() ==> verbatim_items(elem, env, d, next),
            },
        }
    }
}

// ---------------------------------------------------------------------------
// Integers.
// ---------------------------------------------------------------------------

/// Digits are read for the number that they write down, as far as 64 bits hold it.
proof fn lemma_digits(b: Seq<u8>, f: int, s: Seq<char>, k: nat)
    requires
        0 <= f,
        f + s.len() <= b.len(),
        forall|m: int| 0 <= m < s.len() ==> #[trigger] s[m] == b[f + m] as char,
        k <= s.len(),
        crate::number::dec_prefix(s, k) is Some,
    ensures
        crate::scan::digit_value(b, f, 0) == crate::scan::digit_value(
            b,
            f + k,
            crate::number::dec_prefix(s, k)->0 as int % 0x1_0000_0000_0000_0000,
        ),
        crate::scan::digit_end(b, f) == crate::scan::digit_end(b, f + k),
    decreases k,
{
    if k > 0 {
        lemma_digits(b, f, s, (k - 1) as nat);
        let p = crate::number::dec_prefix(s, (k - 1) as nat)->0 as int;
        let x = b[f + k - 1] - 48;
        assert(s[k - 1] == b[f + k - 1] as char);
        let m: int = 0x1_0000_0000_0000_0000;
        assert((p % m * 10 + x) % m == (10 * p + x) % m) by (nonlinear_arith)
            requires
                m == 0x1_0000_0000_0000_0000,
        {
            let q = p / m;
            assert(p == q * m + p % m);
            assert(10 * p + x == (p % m * 10 + x) + (10 * q) * m);
            vstd::arithmetic::div_mod::lemma_mod_multiples_vanish(10 * q, p % m * 10 + x, m);
        }
    }
}

/// The whole of a run of digits.
proof fn lemma_digit_run(b: Seq<u8>, f: int, s: Seq<char>)
    requires
        0 <= f,
        f + s.len() <= b.len(),
        forall|m: int| 0 <= m < s.len() ==> #[trigger] s[m] == b[f + m] as char,
        crate::number::dec_value(s) is Some,
        f + s.len() == b.len() || !crate::scan::is_digit(b[f + s.len()]),
    ensures
        crate::scan::digit_value(b, f, 0) == crate::number::dec_value(s)->0 as int % 0x1_0000_0000_0000_0000,
        crate::scan::digit_end(b, f) == f + s.len(),
{
    lemma_digits(b, f, s, s.len());
}

/// What only digits are starts with one.
proof fn lemma_first_digit(s: Seq<char>)
    requires
        crate::number::dec_value(s) is Some,
    ensures
        s.len() > 0,
        crate::number::is_digit(s[0]),
{
    crate::number::lemma_dec_prefix_grows(s, 1, s.len());
    reveal_with_fuel(crate::number::dec_prefix, 2);
}

/// An integer without a minus is read for its low 64 bits, up to where its text
/// ends.
pub(crate) proof fn lemma_unsigned(b: Seq<u8>, c: int, signed: bool)
    requires
        0 <= c,
        ({
            let j = crate::scan::space_end(b, c);
            let e = crate::json::num_end(b, j);
            &&& 0 <= j < b.len()
            &&& crate::number::unsigned_value(crate::text::ascii_text(b.subrange(j, e))) is Some
        }),
    ensures
        ({
            let j = crate::scan::space_end(b, c);
            let e = crate::json::num_end(b, j);
            let x = crate::number::unsigned_value(crate::text::ascii_text(b.subrange(j, e)))->0;
            crate::scan::int_at(b, c, signed) == Some((x as int % 0x1_0000_0000_0000_0000, e))
        }),
{
    let j = crate::scan::space_end(b, c);
    let e = crate::json::num_end(b, j);
    crate::json::lemma_num_end(b, j);
    lemma_num_stops(b, j);
    let s = crate::text::ascii_text(b.subrange(j, e));
    if s.len() > 0 && s[0] == '+' {
        let t = s.skip(1);
        assert forall|m: int| 0 <= m < t.len() implies #[trigger] t[m] == b[j + 1 + m] as char by {
            assert(t[m] == s[m + 1]);
        }
        assert(b[j] as char == '+');
        assert(b[j] == PLUS);
        lemma_digit_run(b, j + 1, t);
    } else {
        lemma_first_digit(s);
        assert(s[0] == b[j] as char);
        lemma_digit_run(b, j, s);
    }
}

/// After a number stands nothing that could belong to it.
pub(crate) proof fn lemma_num_stops(b: Seq<u8>, i: int)
    requires
        0 <= i <= b.len(),
    ensures
        ({
            let e = crate::json::num_end(b, i);
            e == b.len() || (e < b.len() && !crate::json::is_num_byte(b[e]))
        }),
        crate::scan::number_end(b, i) == crate::json::num_end(b, i),
    decreases b.len() - i,
{
    if i < b.len() && crate::json::is_num_byte(b[i]) {
        lemma_num_stops(b, i + 1);
    }
}

/// An integer with a minus is read for the low 64 bits of its two's complement.
pub(crate) proof fn lemma_negative(b: Seq<u8>, c: int)
    requires
        0 <= c,
        ({
            let j = crate::scan::space_end(b, c);
            let e = crate::json::num_end(b, j);
            let s = crate::text::ascii_text(b.subrange(j, e));
            &&& 0 <= j < b.len()
            &&& s.len() > 0
            &&& s[0] == '-'
            &&& crate::number::dec_value(s.skip(1)) is Some
        }),
    ensures
        ({
            let j = crate::scan::space_end(b, c);
            let e = crate::json::num_end(b, j);
            let s = crate::text::ascii_text(b.subrange(j, e));
            let x = crate::number::dec_value(s.skip(1))->0 as int;
            crate::scan::int_at(b, c, true) == Some(
                ((-(x % 0x1_0000_0000_0000_0000)) % 0x1_0000_0000_0000_0000, e),
            )
        }),
{
    let j = crate::scan::space_end(b, c);
    let e = crate::json::num_end(b, j);
    crate::json::lemma_num_end(b, j);
    lemma_num_stops(b, j);
    let s = crate::text::ascii_text(b.subrange(j, e));
    let t = s.skip(1);
    assert forall|m: int| 0 <= m < t.len() implies #[trigger] t[m] == b[j + 1 + m] as char by {
        assert(t[m] == s[m + 1]);
    }
    assert(b[j] as char == '-');
    assert(b[j] == MINUS);
    lemma_digit_run(b, j + 1, t);
}

/// The low bytes of a number are those of its low 64 bits.
proof fn lemma_low(x: nat, n: u8)
    requires
        whole(n),
    ensures
        crate::arith::le(x % 0x1_0000_0000_0000_0000, n as nat) == crate::arith::le(x, n as nat),
{
    reveal_with_fuel(crate::arith::pow256, 9);
    assert(crate::arith::pow256(8) == 0x1_0000_0000_0000_0000);
    crate::arith::lemma_le_rem(x, 8, n as nat);
}

/// The low 64 bits of a negative number are those of its two's complement in
/// sixteen bytes.
proof fn lemma_low_negative(x: int, n: u8)
    requires
        whole(n),
        0 <= x,
        -x >= i128::MIN,
    ensures
        crate::arith::le(
            ((-(x % 0x1_0000_0000_0000_0000)) % 0x1_0000_0000_0000_0000) as nat,
            n as nat,
        ) == crate::arith::le(crate::arith::as_unsigned(-x), n as nat),
{
    let m: int = 0x1_0000_0000_0000_0000;
    let y = crate::arith::as_unsigned(-x);
    assert(y as int % m == (-(x % m)) % m) by {
        vstd::arithmetic::div_mod::lemma_fundamental_div_mod(x, m);
        let q = x / m;
        assert(x == m * q + x % m);
        if x == 0 {
        } else {
            assert(y == m * m - x) by (nonlinear_arith)
                requires
                    m == 0x1_0000_0000_0000_0000,
                    y == -x + 0x1_0000_0000_0000_0000_0000_0000_0000_0000,
            ;
            assert(y == -(x % m) + (m - q) * m) by (nonlinear_arith)
                requires
                    y == m * m - x,
                    x == m * q + x % m,
            ;
            vstd::arithmetic::div_mod::lemma_mod_multiples_vanish(m - q, -(x % m), m);
            assert(m * (m - q) == (m - q) * m) by (nonlinear_arith);
        }
    }
    lemma_low(y, n);
}

// ---------------------------------------------------------------------------
// Structs.
// ---------------------------------------------------------------------------

/// Whether writes change none of some bytes of a block.
pub open spec fn untouched(ops: Seq<OpV>, block: Block, from: int, n: int) -> bool {
    forall|q: int, i: int|
        0 <= q < ops.len() && #[trigger] crate::memory::touches(ops[q], block, i) ==> !(from <= i < from
            + n)
}

/// Whether a list of members has one of that name.
pub open spec fn named(kvs: Seq<(Seq<char>, JsonV)>, name: Seq<char>) -> bool {
    exists|m: int| 0 <= m < kvs.len() && (#[trigger] kvs[m]).0 == name
}

/// Whether writes lay members out as the fields of their names, and leave the other
/// fields alone.
pub open spec fn placed(
    fields: Seq<FieldV>,
    env: Scope,
    kvs: Seq<(Seq<char>, JsonV)>,
    block: Block,
    off: u64,
    base: nat,
    ops: Seq<OpV>,
    mem: Mem,
) -> bool {
    let hi = (base + ops.len()) as int;
    &&& crate::memory::confined(
        ops,
        crate::memory::fields_area(fields, 0, env, block, off as int, base as int, hi),
    )
    &&& forall|k: int, m: int|
        0 <= k < fields.len() && 0 <= m < kvs.len() && (#[trigger] kvs[m]).0 == (
        #[trigger] fields[k]).name ==> crate::memory::shows(
            fields[k].ty,
            env,
            env.len(),
            kvs[m].1,
            crate::memory::after(mem, ops),
            block,
            off + fields[k].offset,
            base as int,
            hi,
        )
    &&& forall|k: int|
        0 <= k < fields.len() && !named(kvs, (#[trigger] fields[k]).name) ==> untouched(
            ops,
            block,
            off + fields[k].offset,
            crate::memory::field_span(fields[k], env),
        )
}

/// What is written for one member: its value as the field of its name, or nothing.
pub open spec fn member_placed(
    fields: Seq<FieldV>,
    env: Scope,
    key: Seq<char>,
    val: JsonV,
    block: Block,
    off: u64,
    base: nat,
    ops: Seq<OpV>,
    mem: Mem,
) -> bool {
    &&& forall|k: int|
        0 <= k < fields.len() && (#[trigger] fields[k]).name == key ==> {
            &&& off + fields[k].offset <= u64::MAX
            &&& crate::memory::lays(
                fields[k].ty,
                env,
                env.len(),
                val,
                block,
                (off + fields[k].offset) as u64,
                base,
                ops,
                mem,
            )
        }
    &&& (forall|k: int| 0 <= k < fields.len() ==> (#[trigger] fields[k]).name != key) ==> ops.len() == 0
}

/// One member, and then those after it.
#[verifier::spinoff_prover]
#[verifier::rlimit(40)]
proof fn lemma_members_join(
    fields: Seq<FieldV>,
    env: Scope,
    key: Seq<char>,
    val: JsonV,
    more: Seq<(Seq<char>, JsonV)>,
    block: Block,
    off: u64,
    base: nat,
    mem: Mem,
    first: Seq<OpV>,
    rest: Seq<OpV>,
)
    requires
        crate::memory::scope_ok(env),
        crate::memory::fields_apart(fields, fields.len(), env),
        crate::memory::earlier(block, base),
        names_differ(fields),
        once(fields, seq![(key, val)] + more),
        member_placed(fields, env, key, val, block, off, base, first, mem),
        placed(fields, env, more, block, off, base + first.len(), rest, crate::memory::after(mem, first)),
    ensures
        placed(fields, env, seq![(key, val)] + more, block, off, base, first + rest, mem),
{
    let kvs = seq![(key, val)] + more;
    let ops = first + rest;
    let lo = base as int;
    let mid = (base + first.len()) as int;
    let hi = (base + ops.len()) as int;
    let m1 = crate::memory::after(mem, first);
    let m2 = crate::memory::after(m1, rest);
    crate::memory::lemma_after_join(mem, first, rest);
    let all = crate::memory::fields_area(fields, 0, env, block, off as int, lo, hi);
    let part = crate::memory::fields_area(fields, 0, env, block, off as int, mid, hi);
    assert forall|b: Block, i: int| #[trigger] part(b, i) implies all(b, i) by {}
    crate::memory::lemma_confined_more(rest, part, all);
    // The member's own field, where it has one.
    if exists|k: int| 0 <= k < fields.len() && (#[trigger] fields[k]).name == key {
        let k = choose|k: int| 0 <= k < fields.len() && (#[trigger] fields[k]).name == key;
        let f = fields[k];
        let n = crate::memory::field_span(f, env);
        crate::memory::lemma_fields_apart(fields, fields.len(), env, k);
        let one = crate::memory::area(block, off + f.offset, n, lo, mid);
        assert forall|b: Block, i: int| #[trigger] one(b, i) implies all(b, i) by {
            if b == block && off + f.offset <= i < off + f.offset + n {
                assert(crate::memory::in_fields(fields, 0, env, off as int, i)) by {
                    assert(fields[k] == f);
                }
            }
        }
        crate::memory::lemma_confined_more(first, one, all);
        assert(!named(more, f.name)) by {
            if named(more, f.name) {
                let m = choose|m: int| 0 <= m < more.len() && (#[trigger] more[m]).0 == f.name;
                assert(kvs[0].0 == fields[k].name);
                assert(kvs[m + 1] == more[m]);
            }
        }
        assert(untouched(rest, block, off + f.offset, n));
        let others: Area = |b: Block, i: int|
            part(b, i) && !(b == block && off + f.offset <= i < off + f.offset + n);
        assert(crate::memory::confined(rest, others)) by {
            assert forall|q: int, b: Block, i: int|
                0 <= q < rest.len() && #[trigger] crate::memory::touches(rest[q], b, i) implies others(b, i) by {
                assert(part(b, i));
            }
        }
        assert forall|b: Block, i: int| !(#[trigger] others(b, i) && #[trigger] one(b, i)) by {}
        crate::memory::lemma_agree_after(m1, rest, others, one);
        crate::memory::lemma_shows_agree(
            f.ty,
            env,
            env.len(),
            val,
            m1,
            m2,
            one,
            block,
            off + f.offset,
            lo,
            mid,
            lo,
            hi,
        );
        // Fields that neither it nor those after it are for.
        assert forall|j: int| 0 <= j < fields.len() && !named(kvs, (#[trigger] fields[j]).name) implies untouched(
            ops,
            block,
            off + fields[j].offset,
            crate::memory::field_span(fields[j], env),
        ) by {
            lemma_named_more(key, val, more, fields[j].name);
            assert(j != k) by {
                assert(kvs[0].0 == key);
            }
            let g = fields[j];
            let w = crate::memory::field_span(g, env);
            assert(crate::memory::apart(g.offset as int, w, f.offset as int, n));
            assert(untouched(rest, block, off + g.offset, w));
            assert forall|q: int, i: int|
                0 <= q < ops.len() && #[trigger] crate::memory::touches(ops[q], block, i) implies !(off
                + g.offset <= i < off + g.offset + w) by {
                if q < first.len() {
                    assert(ops[q] == first[q]);
                    assert(one(block, i));
                } else {
                    assert(ops[q] == rest[q - first.len()]);
                }
            }
        }
    } else {
        assert(first =~= Seq::empty());
        assert(crate::memory::confined(first, all));
        assert(ops =~= rest);
        assert forall|j: int| 0 <= j < fields.len() && !named(kvs, (#[trigger] fields[j]).name) implies untouched(
            ops,
            block,
            off + fields[j].offset,
            crate::memory::field_span(fields[j], env),
        ) by {
            lemma_named_more(key, val, more, fields[j].name);
        }
    }
    crate::memory::lemma_confined_join(first, rest, all);
    assert forall|j: int, m: int|
        0 <= j < fields.len() && 0 <= m < kvs.len() && (#[trigger] kvs[m]).0 == (
        #[trigger] fields[j]).name implies crate::memory::shows(
        fields[j].ty,
        env,
        env.len(),
        kvs[m].1,
        m2,
        block,
        off + fields[j].offset,
        lo,
        hi,
    ) by {
        if m == 0 {
            assert(fields[j].name == key);
            let k = choose|k: int| 0 <= k < fields.len() && (#[trigger] fields[k]).name == key;
            assert(j == k);
        } else {
            assert(kvs[m] == more[m - 1]);
            crate::memory::lemma_fields_apart(fields, fields.len(), env, j);
            let any: Area = |b: Block, i: int| true;
            assert(crate::memory::agree(m2, m2, any));
            crate::memory::lemma_shows_agree(
                fields[j].ty,
                env,
                env.len(),
                more[m - 1].1,
                m2,
                m2,
                any,
                block,
                off + fields[j].offset,
                mid,
                hi,
                lo,
                hi,
            );
        }
    }
}

proof fn lemma_named_more(
    key: Seq<char>,
    val: JsonV,
    more: Seq<(Seq<char>, JsonV)>,
    name: Seq<char>,
)
    requires
        !named(seq![(key, val)] + more, name),
    ensures
        !named(more, name),
{
    if named(more, name) {
        let m = choose|m: int| 0 <= m < more.len() && (#[trigger] more[m]).0 == name;
        assert((seq![(key, val)] + more)[m + 1] == more[m]);
    }
}

/// The write that makes an `Option` one without a value.
proof fn lemma_option(ty: TyV, env: Scope, limit: nat, block: Block, off: u64, mem: Mem)
    requires
        crate::memory::scope_ok(env),
        crate::memory::no_overlap(ty, env),
        crate::memory::span(ty, env, env.len()) is Some,
        crate::read::as_option(ty, env, limit) matches Some((disc_off, disc_size, v))
            && crate::read::disc_op(disc_off, disc_size, v, block, off) is Some,
    ensures
        ({
            let (disc_off, disc_size, v) = crate::read::as_option(ty, env, limit)->0;
            let ops = seq![crate::read::disc_op(disc_off, disc_size, v, block, off)->0];
            &&& crate::memory::shows_absent(
                ty,
                env,
                limit,
                crate::memory::after(mem, ops),
                block,
                off as int,
            )
            &&& crate::memory::confined(
                ops,
                crate::memory::area(
                    block,
                    off as int,
                    crate::memory::span(ty, env, env.len())->0,
                    0,
                    0,
                ),
            )
        }),
    decreases limit, ty,
{
    match ty {
        TyV::Opt { disc_off, disc_size, none_discr, some_discr, payload_off, size, inner } => {
            lemma_disc(ty, env, none_discr, block, off, mem, 0, 0);
        },
        TyV::Rec { site, body } => {
            crate::memory::lemma_scope_push(env, site, *body);
            crate::memory::lemma_span_more(*body, env.push((site, *body)), env.len(), env.len() + 1);
            lemma_option(*body, env.push((site, *body)), limit, block, off, mem);
        },
        TyV::Ref(site) => {
            let i = crate::interp::find_site(env, env.len(), site)->0;
            crate::interp::lemma_find_site(env, env.len(), site);
            crate::memory::lemma_scope_take(env, i as int);
            lemma_option(env[i as int].1, env.take((i + 1) as int), i, block, off, mem);
        },
        _ => {},
    }
}

/// The write of an `Option`'s discriminant.
pub(crate) proof fn lemma_disc(ty: TyV, env: Scope, discr: u128, block: Block, off: u64, mem: Mem, lo: int, hi: int)
    requires
        ty is Opt,
        crate::memory::span(ty, env, env.len()) is Some,
        crate::read::disc_op(ty->disc_off, ty->disc_size, discr, block, off) is Some,
    ensures
        ({
            let ops = seq![crate::read::disc_op(ty->disc_off, ty->disc_size, discr, block, off)->0];
            &&& crate::memory::none_at(
                crate::memory::after(mem, ops),
                ty->disc_off,
                ty->disc_size,
                discr,
                block,
                off as int,
            )
            &&& crate::memory::confined(
                ops,
                crate::memory::area(
                    block,
                    off as int,
                    crate::memory::span(ty, env, env.len())->0,
                    lo,
                    hi,
                ),
            )
        }),
{
    crate::memory::lemma_lengths();
    let at = (off + ty->disc_off) as u64;
    let bytes = crate::arith::le(discr as nat, ty->disc_size as nat);
    let op = crate::interp::put(block, at, bytes);
    let only = crate::memory::area(block, at as int, ty->disc_size as int, lo, hi);
    let all = crate::memory::area(
        block,
        off as int,
        crate::memory::span(ty, env, env.len())->0,
        lo,
        hi,
    );
    crate::memory::lemma_put(mem, block, at, bytes, ty->disc_size as int, lo, hi);
    assert forall|b: Block, i: int| #[trigger] only(b, i) implies all(b, i) by {}
    crate::memory::lemma_confined_more(seq![op], only, all);
}

/// The writes that make the fields from the `k`th on that are `Option`s ones without
/// a value.
#[verifier::spinoff_prover]
pub(crate) proof fn lemma_none_fields(
    fields: Seq<FieldV>,
    k: nat,
    env: Scope,
    block: Block,
    off: u64,
    base: nat,
    mem: Mem,
)
    requires
        crate::memory::scope_ok(env),
        crate::memory::fields_apart(fields, fields.len(), env),
        crate::memory::earlier(block, base),
        crate::read::none_fields(fields, k, env, block, off) is Some,
    ensures
        ({
            let ops = crate::read::none_fields(fields, k, env, block, off)->0;
            &&& crate::memory::confined(
                ops,
                crate::memory::fields_area(
                    fields,
                    k as int,
                    env,
                    block,
                    off as int,
                    base as int,
                    base as int,
                ),
            )
            &&& forall|j: int|
                k <= j < fields.len() && crate::read::as_option(
                    (#[trigger] fields[j]).ty,
                    env,
                    env.len(),
                ) is Some ==> crate::memory::shows_absent(
                    fields[j].ty,
                    env,
                    env.len(),
                    crate::memory::after(mem, ops),
                    block,
                    off + fields[j].offset,
                )
        }),
    decreases fields.len() - k,
{
    if k < fields.len() {
        let f = fields[k as int];
        let lo = base as int;
        let ops = crate::read::none_fields(fields, k, env, block, off)->0;
        let one = crate::memory::area(
            block,
            off + f.offset,
            crate::memory::field_span(f, env),
            lo,
            lo,
        );
        let more = crate::memory::fields_area(fields, (k + 1) as int, env, block, off as int, lo, lo);
        let all = crate::memory::fields_area(fields, k as int, env, block, off as int, lo, lo);
        crate::memory::lemma_fields_apart(fields, fields.len(), env, k as int);
        crate::memory::lemma_field_alone(fields, k as int, env, block, off as int, lo, lo, lo);
        let rest = crate::read::none_fields(fields, k + 1, env, block, off)->0;
        match crate::read::as_option(f.ty, env, env.len()) {
            None => {
                lemma_none_fields(fields, k + 1, env, block, off, base, mem);
                crate::memory::lemma_confined_more(rest, more, all);
            },
            Some((disc_off, disc_size, v)) => {
                let at = (off + f.offset) as u64;
                let op = crate::read::disc_op(disc_off, disc_size, v, block, at)->0;
                let first = seq![op];
                assert(ops == first + rest);
                lemma_option(f.ty, env, env.len(), block, at, mem);
                let m1 = crate::memory::after(mem, first);
                lemma_none_fields(fields, k + 1, env, block, off, base, m1);
                crate::memory::lemma_after_join(mem, first, rest);
                let m2 = crate::memory::after(m1, rest);
                let small = crate::memory::area(
                    block,
                    off + f.offset,
                    crate::memory::field_span(f, env),
                    0,
                    0,
                );
                assert forall|b: Block, i: int| #[trigger] small(b, i) implies one(b, i) by {}
                crate::memory::lemma_confined_more(first, small, one);
                crate::memory::lemma_confined_more(first, one, all);
                crate::memory::lemma_confined_more(rest, more, all);
                crate::memory::lemma_confined_join(first, rest, all);
                crate::memory::lemma_agree_after(m1, rest, more, one);
                crate::memory::lemma_absent_agree(
                    f.ty,
                    env,
                    env.len(),
                    m1,
                    m2,
                    one,
                    block,
                    off + f.offset,
                );
            },
        }
    }
}

/// What is written for a field of a struct.
pub open spec fn field_shown(
    f: FieldV,
    env: Scope,
    v: JsonV,
    mem: Mem,
    block: Block,
    off: int,
    lo: int,
    hi: int,
) -> bool {
    match crate::json::get_of(v, f.name) {
        Some(sub) => crate::memory::shows(
            f.ty,
            env,
            env.len(),
            sub,
            mem,
            block,
            off + f.offset,
            lo,
            hi,
        ),
        None => crate::memory::shows_absent(f.ty, env, env.len(), mem, block, off + f.offset),
    }
}

proof fn lemma_fields_shown(
    fields: Seq<FieldV>,
    k: nat,
    env: Scope,
    v: JsonV,
    mem: Mem,
    block: Block,
    off: int,
    lo: int,
    hi: int,
)
    requires
        forall|j: int|
            k <= j < fields.len() ==> field_shown(#[trigger] fields[j], env, v, mem, block, off, lo, hi),
    ensures
        crate::memory::shows_fields(fields, k, env, v, mem, block, off, lo, hi),
    decreases fields.len() - k,
{
    if k < fields.len() {
        assert(field_shown(fields[k as int], env, v, mem, block, off, lo, hi));
        lemma_fields_shown(fields, k + 1, env, v, mem, block, off, lo, hi);
    }
}

/// What suits a struct suits each of its fields.
pub(crate) proof fn lemma_suits_field(fields: Seq<FieldV>, k: nat, env: Scope, v: JsonV, j: int)
    requires
        suits_fields(fields, k, env, v),
        k <= j < fields.len(),
    ensures
        match crate::json::get_of(v, fields[j].name) {
            Some(sub) => suits(fields[j].ty, env, env.len(), sub),
            None => crate::read::as_option(fields[j].ty, env, env.len()) is Some,
        },
    decreases fields.len() - k,
{
    if k < j {
        lemma_suits_field(fields, k + 1, env, v, j);
    }
}

/// Members are found by name.
pub(crate) proof fn lemma_found(kvs: Seq<(Seq<char>, JsonV)>, name: Seq<char>, k: int)
    requires
        0 <= k,
    ensures
        match crate::json::member_index(kvs, name, k) {
            Some(m) => k <= m < kvs.len() && kvs[m].0 == name && forall|a: int|
                k <= a < m ==> (#[trigger] kvs[a]).0 != name,
            None => forall|a: int| k <= a < kvs.len() ==> (#[trigger] kvs[a]).0 != name,
        },
    decreases kvs.len() - k,
{
    if k < kvs.len() && kvs[k].0 != name {
        lemma_found(kvs, name, k + 1);
    }
}

/// A struct: its absent fields first, and then its members.
#[verifier::spinoff_prover]
proof fn lemma_struct(
    name: Seq<char>,
    fields: Seq<FieldV>,
    env: Scope,
    limit: nat,
    kvs: Seq<(Seq<char>, JsonV)>,
    block: Block,
    off: u64,
    base: nat,
    mem: Mem,
    ops: Seq<OpV>,
)
    requires
        crate::memory::scope_ok(env),
        crate::memory::fields_apart(fields, fields.len(), env),
        crate::memory::span_fields(fields, fields.len(), env, env.len()) is Some,
        crate::memory::earlier(block, base),
        suits_fields(fields, 0, env, JsonV::Object(kvs)),
        crate::read::none_fields(fields, 0, env, block, off) is Some,
        ({
            let pre = crate::read::none_fields(fields, 0, env, block, off)->0;
            placed(
                fields,
                env,
                kvs,
                block,
                off,
                base + pre.len(),
                ops,
                crate::memory::after(mem, pre),
            )
        }),
    ensures
        crate::memory::lays(
            TyV::Struct { name, fields },
            env,
            limit,
            JsonV::Object(kvs),
            block,
            off,
            base,
            crate::read::none_fields(fields, 0, env, block, off)->0 + ops,
            mem,
        ),
{
    let v = JsonV::Object(kvs);
    let pre = crate::read::none_fields(fields, 0, env, block, off)->0;
    let lo = base as int;
    let mid = (base + pre.len()) as int;
    let hi = (base + (pre + ops).len()) as int;
    lemma_none_fields(fields, 0, env, block, off, base, mem);
    crate::memory::lemma_after_join(mem, pre, ops);
    let m1 = crate::memory::after(mem, pre);
    let m2 = crate::memory::after(m1, ops);
    let all = crate::memory::fields_area(fields, 0, env, block, off as int, lo, hi);
    let none = crate::memory::fields_area(fields, 0, env, block, off as int, lo, lo);
    let part = crate::memory::fields_area(fields, 0, env, block, off as int, mid, hi);
    assert forall|b: Block, i: int| #[trigger] none(b, i) implies all(b, i) by {}
    assert forall|b: Block, i: int| #[trigger] part(b, i) implies all(b, i) by {}
    crate::memory::lemma_confined_more(pre, none, all);
    crate::memory::lemma_confined_more(ops, part, all);
    crate::memory::lemma_confined_join(pre, ops, all);
    crate::memory::lemma_fields_confined(fields, env, block, off as int, pre + ops, lo, hi);
    assert forall|j: int| 0 <= j < fields.len() implies field_shown(
        #[trigger] fields[j],
        env,
        v,
        m2,
        block,
        off as int,
        lo,
        hi,
    ) by {
        let f = fields[j];
        lemma_found(kvs, f.name, 0);
        lemma_suits_field(fields, 0, env, v, j);
        crate::memory::lemma_fields_apart(fields, fields.len(), env, j);
        match crate::json::member_index(kvs, f.name, 0) {
            Some(m) => {
                assert(kvs[m].0 == fields[j].name);
                let any: Area = |b: Block, i: int| true;
                assert(crate::memory::agree(m2, m2, any));
                crate::memory::lemma_shows_agree(
                    f.ty,
                    env,
                    env.len(),
                    kvs[m].1,
                    m2,
                    m2,
                    any,
                    block,
                    off + f.offset,
                    mid,
                    hi,
                    lo,
                    hi,
                );
            },
            None => {
                assert(!named(kvs, f.name));
                let n = crate::memory::field_span(f, env);
                assert(untouched(ops, block, off + f.offset, n));
                let one = crate::memory::area(block, off + f.offset, n, 0, 0);
                let others: Area = |b: Block, i: int|
                    !(b == block && off + f.offset <= i < off + f.offset + n);
                assert(crate::memory::confined(ops, others));
                assert forall|b: Block, i: int| !(#[trigger] others(b, i) && #[trigger] one(b, i)) by {}
                crate::memory::lemma_agree_after(m1, ops, others, one);
                crate::memory::lemma_absent_agree(
                    f.ty,
                    env,
                    env.len(),
                    m1,
                    m2,
                    one,
                    block,
                    off + f.offset,
                );
            },
        }
    }
    lemma_fields_shown(fields, 0, env, v, m2, block, off as int, lo, hi);
}

// ---------------------------------------------------------------------------
// Reading.
// ---------------------------------------------------------------------------

/// What a string between quotes holds, where it has no escapes.
pub(crate) proof fn lemma_between(d: Seq<u8>, c: int)
    requires
        0 <= c,
        crate::scan::space_end(d, c) < d.len(),
        d[crate::scan::space_end(d, c)] == QUOTE,
        crate::json::string_at(d, crate::scan::space_end(d, c)) is Some,
        crate::written::unescaped(d, crate::scan::space_end(d, c) + 1),
    ensures
        ({
            let (s, e) = crate::json::string_at(d, crate::scan::space_end(d, c))->0;
            let (first, quote) = crate::scan::span(d, c);
            &&& 0 < first <= quote < d.len()
            &&& quote + 1 == e
            &&& vstd::utf8::encode_utf8(s) == d.subrange(first, quote)
            &&& crate::read::span_bytes(d, first, quote) == Some(vstd::utf8::encode_utf8(s))
        }),
{
    crate::scan::lemma_space_end(d, c);
    let j = crate::scan::space_end(d, c);
    crate::written::lemma_string(d, j + 1);
    let (bytes, e) = crate::json::str_body(d, j + 1)->0;
    vstd::utf8::decode_utf8_encode_utf8(bytes);
    assert(d.subrange(j + 1, j + 1) =~= Seq::<u8>::empty());
}

/// No field has a name that none was found for.
pub(crate) proof fn lemma_no_field(fields: Seq<FieldV>, k: nat, key: Seq<u8>)
    requires
        crate::read::field_at(fields, k, key) is None,
    ensures
        forall|j: int| k <= j < fields.len() ==> vstd::utf8::encode_utf8((#[trigger] fields[j]).name) != key,
    decreases fields.len() - k,
{
    if k < fields.len() {
        lemma_no_field(fields, k + 1, key);
    }
}

/// A found field has that name.
pub(crate) proof fn lemma_that_field(fields: Seq<FieldV>, k: nat, key: Seq<u8>)
    ensures
        crate::read::field_at(fields, k, key) matches Some(i) ==> i < fields.len()
            && vstd::utf8::encode_utf8(fields[i as int].name) == key,
    decreases fields.len() - k,
{
    if k < fields.len() && vstd::utf8::encode_utf8(fields[k as int].name) != key {
        lemma_that_field(fields, k + 1, key);
    }
}

/// Whether reading a value leaves the document that the text writes down, and goes
/// on where it ends.
pub open spec fn reads(
    ty: TyV,
    env: Scope,
    limit: nat,
    d: Seq<u8>,
    c: int,
    block: Block,
    off: u64,
    base: nat,
    r: (Seq<OpV>, int),
    mem: Mem,
) -> bool {
    crate::json::value_at(d, c) matches Some((v, e)) && r.1 == e && crate::memory::lays(
        ty,
        env,
        limit,
        v,
        block,
        off,
        base,
        r.0,
        mem,
    )
}

/// What can be read.
pub open spec fn can_read(ty: TyV, env: Scope, limit: nat, d: Seq<u8>, c: int, block: Block, base: nat) -> bool {
    &&& crate::memory::scope_ok(env)
    &&& crate::memory::no_overlap(ty, env)
    &&& crate::memory::span(ty, env, env.len()) is Some
    &&& crate::memory::earlier(block, base)
    &&& 0 <= c
    &&& d.len() <= u64::MAX
    &&& crate::written::plain_value(d, c)
    &&& verbatim(ty, env, limit, d, c)
    &&& crate::json::value_at(d, c) matches Some((v, e)) && suits(ty, env, limit, v)
}

proof fn lemma_read_bool(env: Scope, limit: nat, d: Seq<u8>, c: int, block: Block, off: u64, base: nat, n: nat, mem: Mem)
    requires
        can_read(TyV::Bool, env, limit, d, c, block, base),
        crate::read::read(n, TyV::Bool, env, d, c, block, off, base) is Some,
    ensures
        reads(
            TyV::Bool,
            env,
            limit,
            d,
            c,
            block,
            off,
            base,
            crate::read::read(n, TyV::Bool, env, d, c, block, off, base)->0,
            mem,
        ),
{
    crate::written::lemma_start(d, c);
    let j = crate::json::ws_end(d, c);
    let (v, e) = crate::json::value_at(d, c)->0;
    let x: nat = if d[j] == LOWER_T {
        1
    } else {
        0
    };
    let b = if v == JsonV::Bool(true) {
        1u8
    } else {
        0u8
    };
    reveal_with_fuel(crate::arith::le, 2);
    assert(crate::arith::le(x, 1) =~= seq![b]);
    crate::memory::lemma_put(mem, block, off, seq![b], 1, base as int, (base + 1) as int);
}

proof fn lemma_read_char(env: Scope, limit: nat, d: Seq<u8>, c: int, block: Block, off: u64, base: nat, n: nat, mem: Mem)
    requires
        can_read(TyV::Char, env, limit, d, c, block, base),
        crate::read::read(n, TyV::Char, env, d, c, block, off, base) is Some,
    ensures
        reads(
            TyV::Char,
            env,
            limit,
            d,
            c,
            block,
            off,
            base,
            crate::read::read(n, TyV::Char, env, d, c, block, off, base)->0,
            mem,
        ),
{
    crate::memory::lemma_lengths();
    crate::written::lemma_start(d, c);
    let j = crate::json::ws_end(d, c);
    lemma_between(d, c);
    let (v, e) = crate::json::value_at(d, c)->0;
    let s = v->Str_0;
    let (first, quote) = crate::scan::span(d, c);
    vstd::utf8::encode_utf8_decode_utf8(s);
    crate::memory::lemma_put(
        mem,
        block,
        off,
        crate::arith::le(crate::interp::first_char(s) as nat, 4),
        4,
        base as int,
        (base + 1) as int,
    );
}

proof fn lemma_read_unsigned(
    w: u8,
    env: Scope,
    limit: nat,
    d: Seq<u8>,
    c: int,
    block: Block,
    off: u64,
    base: nat,
    n: nat,
    mem: Mem,
)
    requires
        can_read(TyV::U(w), env, limit, d, c, block, base),
        crate::read::read(n, TyV::U(w), env, d, c, block, off, base) is Some,
    ensures
        reads(
            TyV::U(w),
            env,
            limit,
            d,
            c,
            block,
            off,
            base,
            crate::read::read(n, TyV::U(w), env, d, c, block, off, base)->0,
            mem,
        ),
{
    crate::memory::lemma_lengths();
    crate::written::lemma_start(d, c);
    let (v, e) = crate::json::value_at(d, c)->0;
    lemma_unsigned(d, c, false);
    let x = crate::json::u128_of(v)->0;
    lemma_low(x, w);
    crate::memory::lemma_put(
        mem,
        block,
        off,
        crate::arith::le(x, w as nat),
        w as int,
        base as int,
        (base + 1) as int,
    );
}

proof fn lemma_read_signed(
    w: u8,
    env: Scope,
    limit: nat,
    d: Seq<u8>,
    c: int,
    block: Block,
    off: u64,
    base: nat,
    n: nat,
    mem: Mem,
)
    requires
        can_read(TyV::I(w), env, limit, d, c, block, base),
        crate::read::read(n, TyV::I(w), env, d, c, block, off, base) is Some,
    ensures
        reads(
            TyV::I(w),
            env,
            limit,
            d,
            c,
            block,
            off,
            base,
            crate::read::read(n, TyV::I(w), env, d, c, block, off, base)->0,
            mem,
        ),
{
    crate::memory::lemma_lengths();
    crate::written::lemma_start(d, c);
    let (v, e) = crate::json::value_at(d, c)->0;
    let s = v->Num_0;
    let x = crate::json::i128_of(v)->0;
    if s.len() > 0 && s[0] == '-' {
        lemma_negative(d, c);
        lemma_low_negative(-x, w);
    } else {
        lemma_unsigned(d, c, true);
        lemma_low(x as nat, w);
    }
    crate::memory::lemma_put(
        mem,
        block,
        off,
        crate::arith::le(crate::arith::as_unsigned(x), w as nat),
        w as int,
        base as int,
        (base + 1) as int,
    );
}

proof fn lemma_read_str(
    seq: SeqLayout,
    env: Scope,
    limit: nat,
    d: Seq<u8>,
    c: int,
    block: Block,
    off: u64,
    base: nat,
    n: nat,
    mem: Mem,
)
    requires
        can_read(TyV::Str(seq), env, limit, d, c, block, base),
        crate::read::read(n, TyV::Str(seq), env, d, c, block, off, base) is Some,
        base + crate::read::read(n, TyV::Str(seq), env, d, c, block, off, base).unwrap().0.len() <= usize::MAX,
    ensures
        reads(
            TyV::Str(seq),
            env,
            limit,
            d,
            c,
            block,
            off,
            base,
            crate::read::read(n, TyV::Str(seq), env, d, c, block, off, base)->0,
            mem,
        ),
{
    crate::written::lemma_start(d, c);
    lemma_between(d, c);
    let s = crate::json::value_at(d, c).unwrap().0->Str_0;
    crate::memory::lemma_bind_str(seq, env, limit, s, block, off, base, mem);
}

proof fn lemma_read_str_ref(
    ptr_off: usize,
    len_off: usize,
    env: Scope,
    limit: nat,
    d: Seq<u8>,
    c: int,
    block: Block,
    off: u64,
    base: nat,
    n: nat,
    mem: Mem,
)
    requires
        can_read(TyV::StrRef { ptr_off, len_off }, env, limit, d, c, block, base),
        crate::read::read(n, TyV::StrRef { ptr_off, len_off }, env, d, c, block, off, base) is Some,
        base + crate::read::read(
            n,
            TyV::StrRef { ptr_off, len_off },
            env,
            d,
            c,
            block,
            off,
            base,
        ).unwrap().0.len() <= usize::MAX,
    ensures
        reads(
            TyV::StrRef { ptr_off, len_off },
            env,
            limit,
            d,
            c,
            block,
            off,
            base,
            crate::read::read(n, TyV::StrRef { ptr_off, len_off }, env, d, c, block, off, base)->0,
            mem,
        ),
{
    crate::written::lemma_start(d, c);
    lemma_between(d, c);
    let s = crate::json::value_at(d, c).unwrap().0->Str_0;
    let bytes = vstd::utf8::encode_utf8(s);
    let (copy, to) = crate::interp::copy_ops(bytes, base);
    let x = crate::interp::pointer(block, (off + ptr_off) as u64, to);
    let y = crate::interp::put(block, (off + len_off) as u64, crate::interp::word(bytes.len()));
    assert(copy.push(x).push(y) =~= copy + seq![x, y]);
    crate::memory::lemma_bind_str_ref(ptr_off, len_off, env, limit, s, block, off, base, mem);
}

#[verifier::spinoff_prover]
#[verifier::rlimit(80)]
proof fn lemma_read(
    n: nat,
    ty: TyV,
    env: Scope,
    limit: nat,
    d: Seq<u8>,
    c: int,
    block: Block,
    off: u64,
    base: nat,
    mem: Mem,
)
    requires
        can_read(ty, env, limit, d, c, block, base),
        crate::read::read(n, ty, env, d, c, block, off, base) is Some,
        base + crate::read::read(n, ty, env, d, c, block, off, base).unwrap().0.len() <= usize::MAX,
    ensures
        reads(
            ty,
            env,
            limit,
            d,
            c,
            block,
            off,
            base,
            crate::read::read(n, ty, env, d, c, block, off, base)->0,
            mem,
        ),
    decreases n, ty, 0int,
{
    let (ops, end) = crate::read::read(n, ty, env, d, c, block, off, base)->0;
    let (v, e) = crate::json::value_at(d, c)->0;
    let lo = base as int;
    let hi = (base + ops.len()) as int;
    crate::written::lemma_start(d, c);
    let j = crate::json::ws_end(d, c);
    match ty {
        TyV::Bool => lemma_read_bool(env, limit, d, c, block, off, base, n, mem),
        TyV::Char => lemma_read_char(env, limit, d, c, block, off, base, n, mem),
        TyV::U(w) => lemma_read_unsigned(w, env, limit, d, c, block, off, base, n, mem),
        TyV::I(w) => lemma_read_signed(w, env, limit, d, c, block, off, base, n, mem),
        TyV::F32 => {
            lemma_num_stops(d, j);
            crate::memory::lemma_float(mem, block, off, v->Num_0, 4, lo, hi);
        },
        TyV::F64 => {
            lemma_num_stops(d, j);
            crate::memory::lemma_float(mem, block, off, v->Num_0, 8, lo, hi);
        },
        TyV::Unit => crate::written::lemma_end(d, c),
        TyV::Struct { name, fields } => {
            let kvs = v->Object_0;
            let pre = crate::read::none_fields(fields, 0, env, block, off)->0;
            lemma_suits_members(fields, env, kvs);
            lemma_read_members(
                n,
                fields,
                env,
                d,
                j + 1,
                kvs,
                block,
                off,
                base + pre.len(),
                crate::memory::after(mem, pre),
            );
            let more = crate::read::read_members(
                n,
                fields,
                env,
                d,
                j + 1,
                block,
                off,
                base + pre.len(),
            ).unwrap().0;
            lemma_struct(name, fields, env, limit, kvs, block, off, base, mem, more);
        },
        TyV::Tuple { fields } => {
            crate::written::lemma_end(d, c);
            let items = v->Array_0;
            assert(items.skip(0) =~= items);
            lemma_read_tuple(n, fields, 0, env, d, j + 1, items, block, off, base, mem);
            crate::memory::lemma_fields_confined(fields, env, block, off as int, ops, lo, hi);
        },
        TyV::Str(seq) => lemma_read_str(seq, env, limit, d, c, block, off, base, n, mem),
        TyV::StrRef { ptr_off, len_off } => lemma_read_str_ref(
            ptr_off,
            len_off,
            env,
            limit,
            d,
            c,
            block,
            off,
            base,
            n,
            mem,
        ),
        TyV::Vec { elem, elem_size, elem_align, seq } => {
            let items = v->Array_0;
            assert(items.skip(0) =~= items);
            crate::written::lemma_counted(d, j + 1);
            let size = items.len() * elem_size;
            let align = crate::memory::item_align(elem_align);
            let first = crate::interp::home_ops(size, align);
            lemma_read_items(
                n,
                *elem,
                0,
                env,
                d,
                j + 1,
                items,
                elem_size,
                crate::interp::home(size, align, base),
                base + first.len(),
                crate::memory::after(mem, first),
            );
            lemma_read_vec(n, *elem, elem_size, elem_align, seq, env, limit, d, c, block, off, base, mem);
        },
        TyV::Opt { disc_off, disc_size, none_discr, some_discr, payload_off, size, inner } => {
            if d[j] == LOWER_N {
                lemma_disc(ty, env, none_discr, block, off, mem, lo, hi);
            } else {
                let p = (off + payload_off) as u64;
                let some = crate::read::read(n, *inner, env, d, j, block, p, base).unwrap().0;
                lemma_read(n, *inner, env, limit, d, j, block, p, base, mem);
                crate::memory::lemma_bind_some(ty, env, limit, v, block, off, base, mem, some, ops);
            }
        },
        TyV::Boxed { inner, size, align } => {
            let heap = crate::interp::home(size as int, align, base);
            let first = crate::interp::home_ops(size as int, align);
            let rest = crate::read::read(n, *inner, env, d, c, heap, 0, base + first.len()).unwrap().0;
            let last = crate::interp::pointer(block, off, crate::interp::home_ptr(size as int, align, base));
            assert(ops =~= first + rest + seq![last]);
            lemma_read(
                n,
                *inner,
                env,
                limit,
                d,
                c,
                heap,
                0,
                base + first.len(),
                crate::memory::after(mem, first),
            );
            crate::memory::lemma_bind_boxed(*inner, size, align, env, limit, v, block, off, base, mem, rest);
        },
        TyV::Rec { site, body } => {
            crate::memory::lemma_scope_push(env, site, *body);
            crate::memory::lemma_span_more(*body, env.push((site, *body)), env.len(), env.len() + 1);
            lemma_read(
                (n - 1) as nat,
                *body,
                env.push((site, *body)),
                limit,
                d,
                c,
                block,
                off,
                base,
                mem,
            );
        },
        TyV::Ref(site) => {
            let i = crate::interp::find_site(env, env.len(), site)->0;
            crate::interp::lemma_find_site(env, env.len(), site);
            crate::memory::lemma_scope_take(env, i as int);
            lemma_read(
                (n - 1) as nat,
                env[i as int].1,
                env.take((i + 1) as int),
                i,
                d,
                c,
                block,
                off,
                base,
                mem,
            );
        },
        TyV::BTreeMap { key, key_size, val, val_size, new_at, insert } => {
            let seq = (*key)->Str_0;
            let kvs = v->Object_0;
            let new = OpV::MapNew { block, off, at: new_at };
            let m1 = crate::memory::after(mem, seq![new]);
            lemma_map_new(mem, block, off, new_at);
            lemma_read_entries(
                n,
                seq,
                key_size,
                *val,
                val_size,
                insert,
                env,
                d,
                j + 1,
                kvs,
                Seq::empty(),
                block,
                off,
                base + 1,
                m1,
            );
            let ops = crate::read::read_entries(
                n,
                seq,
                key_size,
                *val,
                val_size,
                insert,
                env,
                d,
                j + 1,
                block,
                off,
                base + 1,
            ).unwrap().0;
            lemma_map(ty, env, limit, kvs, block, off, base, ops, mem);
        },
        TyV::Unknown(what) => {},
    }
}

/// A `Vec`: its items, and then its words.
#[verifier::spinoff_prover]
#[verifier::rlimit(40)]
proof fn lemma_read_vec(
    n: nat,
    elem: TyV,
    elem_size: u64,
    elem_align: u64,
    seq: SeqLayout,
    env: Scope,
    limit: nat,
    d: Seq<u8>,
    c: int,
    block: Block,
    off: u64,
    base: nat,
    mem: Mem,
)
    requires
        ({
            let ty = TyV::Vec { elem: Box::new(elem), elem_size, elem_align, seq };
            let j = crate::json::ws_end(d, c);
            let items = crate::json::items_at(d, j + 1).unwrap().0;
            let size = items.len() * elem_size;
            let align = crate::memory::item_align(elem_align);
            let first = crate::interp::home_ops(size, align);
            let heap = crate::interp::home(size, align, base);
            &&& can_read(ty, env, limit, d, c, block, base)
            &&& crate::read::read(n, ty, env, d, c, block, off, base) matches Some((ops, end)) && base
                + ops.len() <= usize::MAX
            &&& (crate::read::read_items(
                n,
                elem,
                0,
                items.len(),
                env,
                d,
                j + 1,
                elem_size,
                heap,
                base + first.len(),
            ) matches Some((rest, last)) && crate::memory::lays_items(
                elem,
                0,
                env,
                items,
                elem_size,
                heap,
                base + first.len(),
                rest,
                crate::memory::after(mem, first),
            ) && crate::scan::space_end(d, last) + 1 == crate::json::items_at(d, j + 1).unwrap().1)
        }),
    ensures
        ({
            let ty = TyV::Vec { elem: Box::new(elem), elem_size, elem_align, seq };
            reads(
                ty,
                env,
                limit,
                d,
                c,
                block,
                off,
                base,
                crate::read::read(n, ty, env, d, c, block, off, base)->0,
                mem,
            )
        }),
{
    let ty = TyV::Vec { elem: Box::new(elem), elem_size, elem_align, seq };
    let (ops, end) = crate::read::read(n, ty, env, d, c, block, off, base)->0;
    let lo = base as int;
    let hi = (base + ops.len()) as int;
    crate::written::lemma_start(d, c);
    let j = crate::json::ws_end(d, c);
    let items = crate::json::items_at(d, j + 1).unwrap().0;
    crate::written::lemma_counted(d, j + 1);
    let size = items.len() * elem_size;
    let align = crate::memory::item_align(elem_align);
    let first = crate::interp::home_ops(size, align);
    let heap = crate::interp::home(size, align, base);
    let to = crate::interp::home_ptr(size, align, base);
    let rest = crate::read::read_items(
        n,
        elem,
        0,
        items.len(),
        env,
        d,
        j + 1,
        elem_size,
        heap,
        base + first.len(),
    ).unwrap().0;
    let words = crate::interp::seq_words(seq, block, off, to, items.len())->Ok_0;
    assert(ops == first + rest + words);
    crate::memory::lemma_seq_words(
        crate::memory::after(crate::memory::after(mem, first), rest),
        seq,
        block,
        off,
        to,
        items.len(),
    );
    crate::memory::lemma_bind_vec(elem, elem_size, elem_align, seq, env, items, block, off, base, mem, rest, words);
}

/// A map without anything in it.
proof fn lemma_map_new(mem: Mem, block: Block, off: u64, at: u64)
    ensures
        ({
            let ops = seq![OpV::MapNew { block, off, at }];
            let m = crate::memory::after(mem, ops);
            &&& crate::memory::map_at(m, block, off as int, Seq::empty())
            &&& crate::memory::confined(
                ops,
                crate::memory::area(block, off as int, crate::memory::MAP_SIZE as int, 0, 0),
            )
        }),
{
    let op = OpV::MapNew { block, off, at };
    let ops = seq![op];
    crate::memory::lemma_after_one(mem, op);
    let a = crate::memory::area(block, off as int, crate::memory::MAP_SIZE as int, 0, 0);
    assert forall|k: int, b: Block, i: int|
        0 <= k < ops.len() && #[trigger] crate::memory::touches(ops[k], b, i) implies a(b, i) by {
        assert(ops[k] == op);
    }
}

/// A key and a value more in a map.
proof fn lemma_map_insert(
    mem: Mem,
    block: Block,
    off: u64,
    key: usize,
    val: usize,
    at: u64,
    had: Seq<(usize, usize)>,
)
    requires
        crate::memory::map_at(mem, block, off as int, had),
    ensures
        ({
            let ops = seq![OpV::MapInsert { block, off, key, val, at }];
            let m = crate::memory::after(mem, ops);
            &&& crate::memory::map_at(m, block, off as int, had.push((key, val)))
            &&& crate::memory::confined(
                ops,
                crate::memory::area(block, off as int, crate::memory::MAP_SIZE as int, 0, 0),
            )
        }),
{
    let op = OpV::MapInsert { block, off, key, val, at };
    let ops = seq![op];
    crate::memory::lemma_after_one(mem, op);
    assert(mem(block, off as int) == Some(crate::memory::Cell::OfMap(had, 0)));
    assert(crate::memory::entries_at(mem, block, off as int) == had);
    let a = crate::memory::area(block, off as int, crate::memory::MAP_SIZE as int, 0, 0);
    assert forall|k: int, b: Block, i: int|
        0 <= k < ops.len() && #[trigger] crate::memory::touches(ops[k], b, i) implies a(b, i) by {
        assert(ops[k] == op);
    }
}

/// A block of its own, and writes into it and into blocks after it, leave alone what
/// there was before.
proof fn lemma_apart(mem: Mem, first: OpV, rest: Seq<OpV>, n: int, base: nat, hi: int)
    requires
        first is Alloc,
        base < usize::MAX,
        base + 1 <= hi,
        crate::memory::confined(
            rest,
            crate::memory::area(Block::Heap(base as usize), 0, n, (base + 1) as int, hi),
        ),
    ensures
        ({
            let ops = seq![first] + rest;
            let a = crate::memory::area(Block::Dest, 0, 0, base as int, hi);
            &&& crate::memory::confined(ops, a)
            &&& crate::memory::after(mem, ops) == crate::memory::after(
                crate::memory::after(mem, seq![first]),
                rest,
            )
        }),
{
    let a = crate::memory::area(Block::Dest, 0, 0, base as int, hi);
    let part = crate::memory::area(Block::Heap(base as usize), 0, n, (base + 1) as int, hi);
    assert forall|b: Block, i: int| #[trigger] part(b, i) implies a(b, i) by {}
    crate::memory::lemma_confined_more(rest, part, a);
    let one = seq![first];
    assert forall|k: int, b: Block, i: int|
        0 <= k < one.len() && #[trigger] crate::memory::touches(one[k], b, i) implies a(b, i) by {
        assert(one[k] == first);
    }
    crate::memory::lemma_confined_join(one, rest, a);
    crate::memory::lemma_after_join(mem, one, rest);
}

/// Whether a member has been moved into a map: what that leaves.
pub open spec fn moved(
    seq: SeqLayout,
    val: TyV,
    env: Scope,
    name: Seq<char>,
    v: JsonV,
    had: Seq<(usize, usize)>,
    block: Block,
    off: u64,
    base: nat,
    pair: (usize, usize),
    ops: Seq<OpV>,
    mem: Mem,
) -> bool {
    let hi = (base + ops.len()) as int;
    let m = crate::memory::after(mem, ops);
    &&& crate::memory::map_at(m, block, off as int, had.push(pair))
    &&& crate::memory::key_at(m, seq, pair.0, name, base as int, hi)
    &&& base <= pair.1 < hi
    &&& crate::memory::shows(
        val,
        env,
        env.len(),
        v,
        m,
        Block::Heap(pair.1),
        0,
        base as int,
        hi,
    )
    &&& crate::memory::confined(
        ops,
        crate::memory::area(block, off as int, crate::memory::MAP_SIZE as int, base as int, hi),
    )
}

/// The parts of what moves a member into a map, put together.
#[verifier::spinoff_prover]
#[verifier::rlimit(60)]
proof fn lemma_moved(
    seq: SeqLayout,
    val: TyV,
    env: Scope,
    name: Seq<char>,
    v: JsonV,
    had: Seq<(usize, usize)>,
    block: Block,
    off: u64,
    base: nat,
    at: u64,
    key_room: OpV,
    key: Seq<OpV>,
    val_room: OpV,
    ops: Seq<OpV>,
    mem: Mem,
)
    requires
        crate::memory::scope_ok(env),
        crate::memory::no_overlap(val, env),
        crate::memory::span(val, env, env.len()) is Some,
        crate::memory::words_apart(seq),
        crate::memory::earlier(block, base),
        crate::memory::map_at(mem, block, off as int, had),
        key_room is Alloc,
        val_room is Alloc,
        base + key.len() + ops.len() + 3 <= usize::MAX,
        crate::memory::lays(
            TyV::Str(seq),
            Seq::empty(),
            0,
            JsonV::Str(name),
            Block::Heap(base as usize),
            0,
            base + 1,
            key,
            crate::memory::after(mem, seq![key_room]),
        ),
        crate::memory::lays(
            val,
            env,
            env.len(),
            v,
            Block::Heap((base + 1 + key.len()) as usize),
            0,
            base + 2 + key.len(),
            ops,
            crate::memory::after(
                crate::memory::after(mem, seq![key_room] + key),
                seq![val_room],
            ),
        ),
    ensures
        ({
            let slot = base + 1 + key.len();
            let last = OpV::MapInsert { block, off, key: base as usize, val: slot as usize, at };
            moved(
                seq,
                val,
                env,
                name,
                v,
                had,
                block,
                off,
                base,
                (base as usize, slot as usize),
                seq![key_room] + key + seq![val_room] + ops + seq![last],
                mem,
            )
        }),
{
    let slot = base + 1 + key.len();
    let last = OpV::MapInsert { block, off, key: base as usize, val: slot as usize, at };
    let lo = base as int;
    let mid = slot as int;
    let end = (slot + 1 + ops.len()) as int;
    let all = seq![key_room] + key + seq![val_room] + ops + seq![last];
    let hi = (base + all.len()) as int;
    let one = seq![key_room] + key;
    let two = seq![val_room] + ops;
    let three = seq![last];
    assert(all =~= one + two + three);
    let m1 = crate::memory::after(mem, one);
    let m2 = crate::memory::after(m1, two);
    let m3 = crate::memory::after(m2, three);
    crate::memory::lemma_after_join(mem, one, two);
    crate::memory::lemma_after_join(mem, one + two, three);
    // The key.
    let kn = crate::memory::span(TyV::Str(seq), Seq::empty(), 0)->0;
    lemma_apart(mem, key_room, key, kn, base, mid);
    // The value.
    let vn = crate::memory::span(val, env, env.len())->0;
    lemma_apart(m1, val_room, ops, vn, slot, end);
    let first = crate::memory::area(Block::Dest, 0, 0, lo, mid);
    let second = crate::memory::area(Block::Dest, 0, 0, mid, end);
    let place = crate::memory::area(block, off as int, crate::memory::MAP_SIZE as int, 0, 0);
    // The map is where it was, and takes them up.
    assert forall|b: Block, i: int| !(#[trigger] first(b, i) && #[trigger] place(b, i)) by {}
    crate::memory::lemma_agree_after(mem, one, first, place);
    assert forall|b: Block, i: int| !(#[trigger] second(b, i) && #[trigger] place(b, i)) by {}
    crate::memory::lemma_agree_after(m1, two, second, place);
    assert forall|i: int| off <= i < off + crate::memory::MAP_SIZE implies #[trigger] m2(block, i) == Some(
        crate::memory::Cell::OfMap(had, i - off),
    ) by {
        assert(place(block, i));
        assert(mem(block, i) == Some(crate::memory::Cell::OfMap(had, i - off)));
        assert(m1(block, i) == mem(block, i));
    }
    lemma_map_insert(m2, block, off, base as usize, slot as usize, at, had);
    // The key stays.
    assert forall|b: Block, i: int| !(#[trigger] second(b, i) && #[trigger] first(b, i)) by {}
    crate::memory::lemma_agree_after(m1, two, second, first);
    assert forall|b: Block, i: int| !(#[trigger] place(b, i) && #[trigger] first(b, i)) by {}
    crate::memory::lemma_agree_after(m2, three, place, first);
    assert(crate::memory::agree(m1, m3, first)) by {
        assert forall|b: Block, i: int| first(b, i) implies m1(b, i) == #[trigger] m3(b, i) by {
            assert(m1(b, i) == m2(b, i));
            assert(m2(b, i) == m3(b, i));
        }
    }
    let whole: Area = |b: Block, i: int| true;
    assert(crate::memory::agree(m1, m1, whole));
    let k = base as usize;
    let bytes = vstd::utf8::encode_utf8(name);
    assert(crate::memory::behind(m1, Block::Heap(k), 0 + seq.ptr_off, bytes, lo + 1, mid));
    crate::memory::lemma_behind_agree(
        m1,
        m1,
        whole,
        Block::Heap(k),
        0 + seq.ptr_off,
        bytes,
        lo + 1,
        mid,
        lo,
        mid,
    );
    assert(crate::memory::key_at(m1, seq, k, name, lo, mid));
    crate::memory::lemma_key_agree(m1, m3, first, seq, k, name, lo, mid, lo, hi);
    // The value stays.
    assert forall|b: Block, i: int| !(#[trigger] place(b, i) && #[trigger] second(b, i)) by {}
    crate::memory::lemma_agree_after(m2, three, place, second);
    let cell = Block::Heap(slot as usize);
    crate::memory::lemma_span_more(val, env, env.len(), env.len());
    assert forall|i: int| 0 <= i < 0 + vn implies #[trigger] second(cell, i) by {
        assert(crate::memory::heap_in(cell, mid, end));
    }
    crate::memory::lemma_shows_agree(
        val,
        env,
        env.len(),
        v,
        m2,
        m3,
        second,
        cell,
        0,
        mid + 1,
        end,
        lo,
        hi,
    );
    // What is changed.
    let area = crate::memory::area(block, off as int, crate::memory::MAP_SIZE as int, lo, hi);
    assert forall|b: Block, i: int| #[trigger] first(b, i) implies area(b, i) by {}
    assert forall|b: Block, i: int| #[trigger] second(b, i) implies area(b, i) by {}
    assert forall|b: Block, i: int| #[trigger] place(b, i) implies area(b, i) by {}
    crate::memory::lemma_confined_more(one, first, area);
    crate::memory::lemma_confined_more(two, second, area);
    crate::memory::lemma_confined_more(three, place, area);
    crate::memory::lemma_confined_join(one, two, area);
    crate::memory::lemma_confined_join(one + two, three, area);
}

/// Whether members have been moved into a map that had some already: what that leaves.
pub open spec fn filled(
    seq: SeqLayout,
    val: TyV,
    env: Scope,
    kvs: Seq<(Seq<char>, JsonV)>,
    had: Seq<(usize, usize)>,
    block: Block,
    off: u64,
    base: nat,
    ops: Seq<OpV>,
    mem: Mem,
) -> bool {
    let hi = (base + ops.len()) as int;
    let m = crate::memory::after(mem, ops);
    let now = crate::memory::entries_at(m, block, off as int);
    &&& crate::memory::map_at(m, block, off as int, now)
    &&& now.len() >= had.len()
    &&& now.take(had.len() as int) == had
    &&& crate::memory::shows_entries(
        seq,
        val,
        env,
        kvs,
        now.skip(had.len() as int),
        m,
        base as int,
        hi,
    )
    &&& crate::memory::confined(
        ops,
        crate::memory::area(block, off as int, crate::memory::MAP_SIZE as int, base as int, hi),
    )
}

/// One member, and then those after it.
#[verifier::spinoff_prover]
#[verifier::rlimit(60)]
proof fn lemma_filled(
    seq: SeqLayout,
    val: TyV,
    env: Scope,
    name: Seq<char>,
    v: JsonV,
    more: Seq<(Seq<char>, JsonV)>,
    had: Seq<(usize, usize)>,
    pair: (usize, usize),
    block: Block,
    off: u64,
    base: nat,
    first: Seq<OpV>,
    rest: Seq<OpV>,
    mem: Mem,
)
    requires
        crate::memory::scope_ok(env),
        crate::memory::no_overlap(val, env),
        crate::memory::span(val, env, env.len()) is Some,
        crate::memory::earlier(block, base),
        moved(seq, val, env, name, v, had, block, off, base, pair, first, mem),
        filled(
            seq,
            val,
            env,
            more,
            had.push(pair),
            block,
            off,
            base + first.len(),
            rest,
            crate::memory::after(mem, first),
        ),
    ensures
        filled(
            seq,
            val,
            env,
            seq![(name, v)] + more,
            had,
            block,
            off,
            base,
            first + rest,
            mem,
        ),
{
    let kvs = seq![(name, v)] + more;
    let lo = base as int;
    let mid = (base + first.len()) as int;
    let hi = (base + (first + rest).len()) as int;
    let m1 = crate::memory::after(mem, first);
    let m2 = crate::memory::after(m1, rest);
    crate::memory::lemma_after_join(mem, first, rest);
    let now = crate::memory::entries_at(m2, block, off as int);
    let n = had.len() as int;
    assert(now.take(n + 1)[n] == pair);
    assert(now[n] == pair);
    assert(now.take(n) =~= had) by {
        assert forall|i: int| 0 <= i < n implies now.take(n)[i] == had[i] by {
            assert(now.take(n + 1)[i] == had.push(pair)[i]);
        }
    }
    let list = now.skip(n);
    assert(list[0] == pair);
    assert(list.drop_first() =~= now.skip(n + 1));
    assert(kvs[0] == (name, v));
    assert(kvs.drop_first() =~= more);
    let size = crate::memory::MAP_SIZE as int;
    let part = crate::memory::area(block, off as int, size, mid, hi);
    let heaps = crate::memory::area(Block::Dest, 0, 0, lo, mid);
    assert forall|b: Block, i: int| !(#[trigger] part(b, i) && #[trigger] heaps(b, i)) by {}
    crate::memory::lemma_agree_after(m1, rest, part, heaps);
    crate::memory::lemma_key_agree(m1, m2, heaps, seq, pair.0, name, lo, mid, lo, hi);
    let cell = Block::Heap(pair.1);
    assert forall|i: int| #[trigger] heaps(cell, i) by {
        assert(crate::memory::heap_in(cell, lo, mid));
    }
    crate::memory::lemma_shows_agree(
        val,
        env,
        env.len(),
        v,
        m1,
        m2,
        heaps,
        cell,
        0,
        lo,
        mid,
        lo,
        hi,
    );
    let whole: Area = |b: Block, i: int| true;
    assert(crate::memory::agree(m2, m2, whole));
    crate::memory::lemma_entries_agree(
        seq,
        val,
        env,
        more,
        now.skip(n + 1),
        m2,
        m2,
        whole,
        mid,
        hi,
        lo,
        hi,
    );
    let all = crate::memory::area(block, off as int, size, lo, hi);
    let one = crate::memory::area(block, off as int, size, lo, mid);
    assert forall|b: Block, i: int| #[trigger] one(b, i) implies all(b, i) by {}
    assert forall|b: Block, i: int| #[trigger] part(b, i) implies all(b, i) by {}
    crate::memory::lemma_confined_more(first, one, all);
    crate::memory::lemma_confined_more(rest, part, all);
    crate::memory::lemma_confined_join(first, rest, all);
}

/// A map, and what was moved into it.
proof fn lemma_map(
    ty: TyV,
    env: Scope,
    limit: nat,
    kvs: Seq<(Seq<char>, JsonV)>,
    block: Block,
    off: u64,
    base: nat,
    ops: Seq<OpV>,
    mem: Mem,
)
    requires
        ty is BTreeMap,
        *ty->key is Str,
        crate::memory::scope_ok(env),
        crate::memory::no_overlap(*ty->val, env),
        crate::memory::span(*ty->val, env, env.len()) is Some,
        filled(
            (*ty->key)->Str_0,
            *ty->val,
            env,
            kvs,
            Seq::empty(),
            block,
            off,
            base + 1,
            ops,
            crate::memory::after(mem, seq![OpV::MapNew { block, off, at: ty->new_at }]),
        ),
    ensures
        crate::memory::lays(
            ty,
            env,
            limit,
            JsonV::Object(kvs),
            block,
            off,
            base,
            seq![OpV::MapNew { block, off, at: ty->new_at }] + ops,
            mem,
        ),
{
    let new = OpV::MapNew { block, off, at: ty->new_at };
    let seq = (*ty->key)->Str_0;
    let lo = base as int;
    let hi = (base + 1 + ops.len()) as int;
    let m1 = crate::memory::after(mem, seq![new]);
    let m2 = crate::memory::after(m1, ops);
    crate::memory::lemma_after_join(mem, seq![new], ops);
    lemma_map_new(mem, block, off, ty->new_at);
    let now = crate::memory::entries_at(m2, block, off as int);
    assert(now.skip(0) =~= now);
    let whole: Area = |b: Block, i: int| true;
    assert(crate::memory::agree(m2, m2, whole));
    crate::memory::lemma_entries_agree(
        seq,
        *ty->val,
        env,
        kvs,
        now,
        m2,
        m2,
        whole,
        lo + 1,
        hi,
        lo,
        hi,
    );
    let size = crate::memory::MAP_SIZE as int;
    let all = crate::memory::area(block, off as int, size, lo, hi);
    let one = crate::memory::area(block, off as int, size, 0, 0);
    let part = crate::memory::area(block, off as int, size, lo + 1, hi);
    assert forall|b: Block, i: int| #[trigger] one(b, i) implies all(b, i) by {}
    assert forall|b: Block, i: int| #[trigger] part(b, i) implies all(b, i) by {}
    crate::memory::lemma_confined_more(seq![new], one, all);
    crate::memory::lemma_confined_more(ops, part, all);
    crate::memory::lemma_confined_join(seq![new], ops, all);
}

#[verifier::spinoff_prover]
#[verifier::rlimit(60)]
proof fn lemma_read_entries(
    n: nat,
    seq: SeqLayout,
    key_size: u64,
    val: TyV,
    val_size: u64,
    insert: u64,
    env: Scope,
    d: Seq<u8>,
    c: int,
    kvs: Seq<(Seq<char>, JsonV)>,
    had: Seq<(usize, usize)>,
    block: Block,
    off: u64,
    base: nat,
    mem: Mem,
)
    requires
        crate::memory::scope_ok(env),
        crate::memory::no_overlap(val, env),
        crate::memory::span(val, env, env.len()) is Some,
        crate::memory::words_apart(seq),
        crate::memory::earlier(block, base),
        0 <= c,
        d.len() <= u64::MAX,
        crate::written::plain_members(d, c),
        crate::json::members_at(d, c) matches Some((ms, e)) && ms == kvs,
        suits_entries(val, env, kvs),
        verbatim_entries(val, env, d, c),
        crate::memory::map_at(mem, block, off as int, had),
        crate::read::read_entries(
            n,
            seq,
            key_size,
            val,
            val_size,
            insert,
            env,
            d,
            c,
            block,
            off,
            base,
        ) matches Some((ops, end)) && base + ops.len() <= usize::MAX,
    ensures
        ({
            let (ops, end) = crate::read::read_entries(
                n,
                seq,
                key_size,
                val,
                val_size,
                insert,
                env,
                d,
                c,
                block,
                off,
                base,
            )->0;
            &&& filled(seq, val, env, kvs, had, block, off, base, ops, mem)
            &&& end == crate::json::members_at(d, c).unwrap().1
        }),
    decreases n, val, d.len() + 4 - c,
{
    crate::written::lemma_spaced(d, c);
    crate::json::lemma_ws_end(d, c);
    let j = crate::json::ws_end(d, c);
    if d[j] == CLOSE_BRACE {
        let none = Seq::<OpV>::empty();
        assert(crate::memory::after(mem, none) == mem);
        assert(mem(block, off as int) == Some(crate::memory::Cell::OfMap(had, 0)));
        assert(had.take(had.len() as int) =~= had);
        assert(had.skip(had.len() as int) =~= Seq::<(usize, usize)>::empty());
    } else {
        let (key, ke) = crate::json::string_at(d, j)->0;
        crate::json::lemma_string_at(d, j);
        let q = crate::json::ws_end(d, ke);
        crate::json::lemma_ws_end(d, ke);
        let (v, ve) = crate::json::value_at(d, q + 1)->0;
        crate::json::lemma_value_at(d, q + 1);
        crate::json::lemma_ws_end(d, q + 1);
        crate::written::lemma_spaced(d, ke);
        crate::written::lemma_spaced(d, ve);
        crate::json::lemma_ws_end(d, ve);
        let next = crate::json::comma_end(d, ve)->0;
        let more = crate::json::members_at(d, next).unwrap().0;
        assert(kvs == seq![(key, v)] + more);
        assert(kvs[0] == (key, v));
        assert(kvs.drop_first() =~= more);
        let (first, end) = crate::read::read_entry(
            n,
            seq,
            key_size,
            val,
            val_size,
            insert,
            env,
            d,
            j,
            block,
            off,
            base,
        )->0;
        lemma_read_entry(n, seq, key_size, val, val_size, insert, env, d, j, had, block, off, base, mem);
        let slot = base + 1 + crate::read::read_str(
            seq,
            d,
            j,
            Block::Heap(base as usize),
            0,
            base + 1,
        ).unwrap().0.len();
        let pair = (base as usize, slot as usize);
        let rest = crate::read::read_entries(
            n,
            seq,
            key_size,
            val,
            val_size,
            insert,
            env,
            d,
            next,
            block,
            off,
            base + first.len(),
        ).unwrap().0;
        lemma_read_entries(
            n,
            seq,
            key_size,
            val,
            val_size,
            insert,
            env,
            d,
            next,
            more,
            had.push(pair),
            block,
            off,
            base + first.len(),
            crate::memory::after(mem, first),
        );
        lemma_filled(seq, val, env, key, v, more, had, pair, block, off, base, first, rest, mem);
    }
}

/// One member, with its key's first quote at `h`, moved into a map.
#[verifier::spinoff_prover]
#[verifier::rlimit(60)]
proof fn lemma_read_entry(
    n: nat,
    seq: SeqLayout,
    key_size: u64,
    val: TyV,
    val_size: u64,
    insert: u64,
    env: Scope,
    d: Seq<u8>,
    h: int,
    had: Seq<(usize, usize)>,
    block: Block,
    off: u64,
    base: nat,
    mem: Mem,
)
    requires
        crate::memory::scope_ok(env),
        crate::memory::no_overlap(val, env),
        crate::memory::span(val, env, env.len()) is Some,
        crate::memory::words_apart(seq),
        crate::memory::earlier(block, base),
        crate::memory::map_at(mem, block, off as int, had),
        0 <= h < d.len() <= u64::MAX,
        crate::written::unescaped(d, h + 1),
        crate::json::string_at(d, h) matches Some((key, ke)) && crate::written::spaced(d, ke) && ({
            let q = crate::json::ws_end(d, ke);
            &&& crate::written::plain_value(d, q + 1)
            &&& verbatim(val, env, env.len(), d, q + 1)
            &&& crate::json::value_at(d, q + 1) matches Some((v, ve)) && suits(val, env, env.len(), v)
        }),
        crate::read::read_entry(
            n,
            seq,
            key_size,
            val,
            val_size,
            insert,
            env,
            d,
            h,
            block,
            off,
            base,
        ) matches Some((ops, end)) && base + ops.len() <= usize::MAX,
    ensures
        ({
            let (key, ke) = crate::json::string_at(d, h)->0;
            let (v, ve) = crate::json::value_at(d, crate::json::ws_end(d, ke) + 1)->0;
            let (ops, end) = crate::read::read_entry(
                n,
                seq,
                key_size,
                val,
                val_size,
                insert,
                env,
                d,
                h,
                block,
                off,
                base,
            )->0;
            let slot = base + 1 + crate::read::read_str(
                seq,
                d,
                h,
                Block::Heap(base as usize),
                0,
                base + 1,
            ).unwrap().0.len();
            &&& moved(
                seq,
                val,
                env,
                key,
                v,
                had,
                block,
                off,
                base,
                (base as usize, slot as usize),
                ops,
                mem,
            )
            &&& end == ve
        }),
    decreases n, val, 1int,
{
    let (name, ke) = crate::json::string_at(d, h)->0;
    assert(crate::scan::space_end(d, h) == h);
    lemma_between(d, h);
    crate::json::lemma_string_at(d, h);
    crate::written::lemma_spaced(d, ke);
    crate::json::lemma_ws_end(d, ke);
    let at = crate::json::ws_end(d, ke) + 1;
    let (v, ve) = crate::json::value_at(d, at)->0;
    let heap = Block::Heap(base as usize);
    let (key, after_key) = crate::read::read_str(seq, d, h, heap, 0, base + 1)->0;
    let slot = base + 1 + key.len();
    let key_room = OpV::Alloc { size: crate::read::room(key_size), align: crate::read::SLOT_ALIGN };
    let val_room = OpV::Alloc { size: crate::read::room(val_size), align: crate::read::SLOT_ALIGN };
    let cell = Block::Heap(slot as usize);
    let ops = crate::read::read(n, val, env, d, at, cell, 0, slot + 1).unwrap().0;
    let m0 = crate::memory::after(mem, seq![key_room]);
    assert(crate::interp::bind(
        TyV::Str(seq),
        Seq::empty(),
        0,
        JsonV::Str(name),
        heap,
        0,
        base + 1,
    ) == Ok::<Seq<OpV>, crate::interp::BindErrorV>(key));
    crate::memory::lemma_bind_str(seq, Seq::empty(), 0, name, heap, 0, base + 1, m0);
    let m1 = crate::memory::after(mem, seq![key_room] + key);
    let m2 = crate::memory::after(m1, seq![val_room]);
    lemma_read(n, val, env, env.len(), d, at, cell, 0, slot + 1, m2);
    lemma_moved(
        seq,
        val,
        env,
        name,
        v,
        had,
        block,
        off,
        base,
        insert,
        key_room,
        key,
        val_room,
        ops,
        mem,
    );
}

/// What suits a struct suits, of each member, the field of its name.
pub(crate) proof fn lemma_suits_members(fields: Seq<FieldV>, env: Scope, kvs: Seq<(Seq<char>, JsonV)>)
    requires
        suits_fields(fields, 0, env, JsonV::Object(kvs)),
        once(fields, kvs),
    ensures
        members_suit(fields, env, kvs),
{
    assert forall|k: int, m: int|
        0 <= k < fields.len() && 0 <= m < kvs.len() && (#[trigger] kvs[m]).0 == (
        #[trigger] fields[k]).name implies suits(fields[k].ty, env, env.len(), kvs[m].1) by {
        lemma_suits_field(fields, 0, env, JsonV::Object(kvs), k);
        lemma_found(kvs, fields[k].name, 0);
        let a = crate::json::member_index(kvs, fields[k].name, 0)->0;
        assert(kvs[a].0 == fields[k].name);
        assert(kvs[m].0 == fields[k].name);
    }
}

/// Whether each member is a value of the field of its name.
pub open spec fn members_suit(fields: Seq<FieldV>, env: Scope, kvs: Seq<(Seq<char>, JsonV)>) -> bool {
    forall|k: int, m: int|
        0 <= k < fields.len() && 0 <= m < kvs.len() && (#[trigger] kvs[m]).0 == (
        #[trigger] fields[k]).name ==> suits(fields[k].ty, env, env.len(), kvs[m].1)
}

/// Where there are no items left, the bracket closes.
pub(crate) proof fn lemma_closed(d: Seq<u8>, c: int)
    requires
        0 <= c,
        crate::written::plain_items(d, c),
        crate::json::items_at(d, c) matches Some((vs, e)) && vs.len() == 0,
    ensures
        crate::scan::space_end(d, c) + 1 == crate::json::items_at(d, c).unwrap().1,
{
    crate::written::lemma_spaced(d, c);
    crate::json::lemma_ws_end(d, c);
}

/// The next item, where the bracket does not close yet.
pub(crate) proof fn lemma_item(d: Seq<u8>, c: int, items: Seq<JsonV>, k: nat)
    requires
        0 <= c,
        k <= items.len(),
        crate::written::plain_items(d, c),
        crate::json::items_at(d, c) matches Some((vs, e)) && vs == items.skip(k as int),
        d[crate::json::ws_end(d, c)] != CLOSE_BRACKET,
    ensures
        ({
            let j = crate::json::ws_end(d, c);
            let (v, ve) = crate::json::value_at(d, j)->0;
            let next = crate::json::comma_end(d, ve)->0;
            &&& c <= j < d.len()
            &&& crate::scan::space_end(d, c) == j
            &&& k < items.len()
            &&& crate::written::plain_value(d, j)
            &&& crate::json::value_at(d, j) == Some((items[k as int], ve))
            &&& crate::read::comma_end(d, ve) == Some(next)
            &&& c < next <= d.len()
            &&& crate::written::plain_items(d, next)
            &&& crate::json::items_at(d, next) == Some(
                (items.skip((k + 1) as int), crate::json::items_at(d, c).unwrap().1),
            )
        }),
{
    crate::written::lemma_spaced(d, c);
    crate::json::lemma_ws_end(d, c);
    let j = crate::json::ws_end(d, c);
    let (v, ve) = crate::json::value_at(d, j)->0;
    crate::json::lemma_value_at(d, j);
    crate::written::lemma_spaced(d, ve);
    crate::json::lemma_ws_end(d, ve);
    let next = crate::json::comma_end(d, ve)->0;
    let (rest, e) = crate::json::items_at(d, next)->0;
    let vs = seq![v] + rest;
    assert(vs == items.skip(k as int));
    assert(vs.len() == items.len() - k);
    assert(vs[0] == v);
    assert(items.skip(k as int)[0] == items[k as int]);
    assert(rest =~= items.skip((k + 1) as int)) by {
        assert forall|m: int| 0 <= m < rest.len() implies rest[m] == items.skip((k + 1) as int)[m] by {
            assert(vs[m + 1] == rest[m]);
            assert(items.skip(k as int)[m + 1] == items[k + m + 1]);
        }
    }
}

#[verifier::spinoff_prover]
proof fn lemma_read_items(
    n: nat,
    elem: TyV,
    i: nat,
    env: Scope,
    d: Seq<u8>,
    c: int,
    items: Seq<JsonV>,
    elem_size: u64,
    heap: Block,
    base: nat,
    mem: Mem,
)
    requires
        crate::memory::scope_ok(env),
        crate::memory::no_overlap(elem, env),
        crate::memory::span(elem, env, env.len()) is Some,
        crate::memory::span(elem, env, env.len())->0 <= elem_size,
        crate::memory::earlier(heap, base),
        i <= items.len(),
        items.len() * elem_size <= u64::MAX,
        0 <= c,
        d.len() <= u64::MAX,
        crate::written::plain_items(d, c),
        crate::json::items_at(d, c) matches Some((vs, e)) && vs == items.skip(i as int),
        suits_items(elem, i, env, items),
        verbatim_items(elem, env, d, c),
        crate::read::read_items(n, elem, i, items.len(), env, d, c, elem_size, heap, base) is Some,
        base + crate::read::read_items(
            n,
            elem,
            i,
            items.len(),
            env,
            d,
            c,
            elem_size,
            heap,
            base,
        ).unwrap().0.len() <= usize::MAX,
    ensures
        ({
            let (ops, end) = crate::read::read_items(
                n,
                elem,
                i,
                items.len(),
                env,
                d,
                c,
                elem_size,
                heap,
                base,
            )->0;
            &&& crate::memory::lays_items(elem, i, env, items, elem_size, heap, base, ops, mem)
            &&& crate::scan::space_end(d, end) + 1 == crate::json::items_at(d, c).unwrap().1
        }),
    decreases n, elem, (items.len() - i) + 1,
{
    if i >= items.len() {
        lemma_closed(d, c);
    } else {
        let block = heap;
        let at = (i * elem_size) as u64;
        assert(d[crate::json::ws_end(d, c)] != CLOSE_BRACKET) by {
            assert(items.skip(i as int).len() > 0);
        }
        lemma_item(d, c, items, i);
        let j = crate::json::ws_end(d, c);
        let ve = crate::json::value_at(d, j).unwrap().1;
        let next = crate::json::comma_end(d, ve)->0;
        let first = crate::read::read(n, elem, env, d, j, block, at, base).unwrap().0;
        lemma_read(n, elem, env, env.len(), d, j, block, at, base, mem);
        let rest = crate::read::read_items(
            n,
            elem,
            i + 1,
            items.len(),
            env,
            d,
            next,
            elem_size,
            heap,
            base + first.len(),
        ).unwrap().0;
        lemma_read_items(
            n,
            elem,
            i + 1,
            env,
            d,
            next,
            items,
            elem_size,
            heap,
            base + first.len(),
            crate::memory::after(mem, first),
        );
        crate::memory::lemma_items_join(elem, i, env, items, elem_size, heap, base, mem, first, rest);
    }
}

#[verifier::spinoff_prover]
proof fn lemma_read_tuple(
    n: nat,
    fields: Seq<FieldV>,
    k: nat,
    env: Scope,
    d: Seq<u8>,
    c: int,
    items: Seq<JsonV>,
    block: Block,
    off: u64,
    base: nat,
    mem: Mem,
)
    requires
        crate::memory::scope_ok(env),
        crate::memory::fields_apart(fields, fields.len(), env),
        crate::memory::earlier(block, base),
        k <= items.len(),
        0 <= c,
        d.len() <= u64::MAX,
        crate::written::plain_items(d, c),
        crate::json::items_at(d, c) matches Some((vs, e)) && vs == items.skip(k as int),
        suits_tuple(fields, k, env, items),
        verbatim_tuple(fields, k, env, d, c),
        crate::read::read_tuple(n, fields, k, env, d, c, block, off, base) is Some,
        base + crate::read::read_tuple(n, fields, k, env, d, c, block, off, base)->0.len() <= usize::MAX,
    ensures
        crate::memory::lays_tuple(
            fields,
            k,
            env,
            items,
            block,
            off,
            base,
            crate::read::read_tuple(n, fields, k, env, d, c, block, off, base)->0,
            mem,
        ),
    decreases n, fields, fields.len() - k,
{
    crate::written::lemma_spaced(d, c);
    crate::json::lemma_ws_end(d, c);
    let j = crate::json::ws_end(d, c);
    if k < fields.len() && d[j] != CLOSE_BRACKET {
        let f = fields[k as int];
        let at = (off + f.offset) as u64;
        lemma_item(d, c, items, k);
        let ve = crate::json::value_at(d, j).unwrap().1;
        let next = crate::json::comma_end(d, ve)->0;
        crate::memory::lemma_fields_apart(fields, fields.len(), env, k as int);
        let first = crate::read::read(n, f.ty, env, d, j, block, at, base).unwrap().0;
        lemma_read(n, f.ty, env, env.len(), d, j, block, at, base, mem);
        let rest = crate::read::read_tuple(
            n,
            fields,
            k + 1,
            env,
            d,
            next,
            block,
            off,
            base + first.len(),
        )->0;
        lemma_read_tuple(
            n,
            fields,
            k + 1,
            env,
            d,
            next,
            items,
            block,
            off,
            base + first.len(),
            crate::memory::after(mem, first),
        );
        crate::memory::lemma_tuple_join(fields, k, env, items, block, off, base, mem, first, rest);
    }
}

#[verifier::spinoff_prover]
#[verifier::rlimit(40)]
proof fn lemma_read_members(
    n: nat,
    fields: Seq<FieldV>,
    env: Scope,
    d: Seq<u8>,
    c: int,
    kvs: Seq<(Seq<char>, JsonV)>,
    block: Block,
    off: u64,
    base: nat,
    mem: Mem,
)
    requires
        crate::memory::scope_ok(env),
        crate::memory::fields_apart(fields, fields.len(), env),
        crate::memory::earlier(block, base),
        names_differ(fields),
        once(fields, kvs),
        members_suit(fields, env, kvs),
        0 <= c,
        d.len() <= u64::MAX,
        crate::written::plain_members(d, c),
        crate::json::members_at(d, c) matches Some((ms, e)) && ms == kvs,
        verbatim_members(fields, env, d, c),
        crate::read::read_members(n, fields, env, d, c, block, off, base) is Some,
        base + crate::read::read_members(n, fields, env, d, c, block, off, base).unwrap().0.len()
            <= usize::MAX,
    ensures
        ({
            let (ops, end) = crate::read::read_members(n, fields, env, d, c, block, off, base)->0;
            &&& placed(fields, env, kvs, block, off, base, ops, mem)
            &&& end == crate::json::members_at(d, c).unwrap().1
        }),
    decreases n, fields, d.len() + 2 - c,
{
    crate::written::lemma_spaced(d, c);
    crate::json::lemma_ws_end(d, c);
    let j = crate::json::ws_end(d, c);
    if d[j] != CLOSE_BRACE {
        let (key, ke) = crate::json::string_at(d, j)->0;
        crate::json::lemma_string_at(d, j);
        let q = crate::json::ws_end(d, ke);
        crate::json::lemma_ws_end(d, ke);
        let (val, ve) = crate::json::value_at(d, q + 1)->0;
        crate::json::lemma_value_at(d, q + 1);
        crate::json::lemma_ws_end(d, q + 1);
        crate::written::lemma_spaced(d, ve);
        crate::json::lemma_ws_end(d, ve);
        let next = crate::json::comma_end(d, ve)->0;
        let more = crate::json::members_at(d, next).unwrap().0;
        assert(kvs == seq![(key, val)] + more);
        assert(kvs[0] == (key, val));
        assert forall|m: int| 0 <= m < more.len() implies #[trigger] more[m] == kvs[m + 1] by {}
        assert(once(fields, more)) by {
            assert forall|k: int, a: int, b: int|
                0 <= k < fields.len() && 0 <= a < b < more.len() && (#[trigger] more[a]).0 == (
                #[trigger] fields[k]).name implies (#[trigger] more[b]).0 != fields[k].name by {
                assert(kvs[a + 1].0 == fields[k].name);
                assert(more[b] == kvs[b + 1]);
            }
        }
        assert(members_suit(fields, env, more)) by {
            assert forall|k: int, m: int|
                0 <= k < fields.len() && 0 <= m < more.len() && (#[trigger] more[m]).0 == (
                #[trigger] fields[k]).name implies suits(fields[k].ty, env, env.len(), more[m].1) by {
                assert(kvs[m + 1].0 == fields[k].name);
            }
        }
        let (first, end) = crate::read::read_member(n, fields, env, d, j, block, off, base)->0;
        assert forall|k: int| 0 <= k < fields.len() && (#[trigger] fields[k]).name == key implies suits(
            fields[k].ty,
            env,
            env.len(),
            val,
        ) && verbatim(fields[k].ty, env, env.len(), d, q + 1) by {
            assert(kvs[0].0 == fields[k].name);
        }
        lemma_read_member(n, fields, env, d, j, block, off, base, mem);
        let rest = crate::read::read_members(
            n,
            fields,
            env,
            d,
            next,
            block,
            off,
            base + first.len(),
        ).unwrap().0;
        lemma_read_members(
            n,
            fields,
            env,
            d,
            next,
            more,
            block,
            off,
            base + first.len(),
            crate::memory::after(mem, first),
        );
        lemma_members_join(fields, env, key, val, more, block, off, base, mem, first, rest);
    }
}

/// One member, with its key's first quote at `h`.
#[verifier::spinoff_prover]
proof fn lemma_read_member(
    n: nat,
    fields: Seq<FieldV>,
    env: Scope,
    d: Seq<u8>,
    h: int,
    block: Block,
    off: u64,
    base: nat,
    mem: Mem,
)
    requires
        crate::memory::scope_ok(env),
        crate::memory::fields_apart(fields, fields.len(), env),
        crate::memory::earlier(block, base),
        names_differ(fields),
        0 <= h < d.len() <= u64::MAX,
        crate::written::unescaped(d, h + 1),
        crate::json::string_at(d, h) matches Some((key, ke)) && crate::written::spaced(d, ke) && ({
            let q = crate::json::ws_end(d, ke);
            &&& crate::written::plain_value(d, q + 1)
            &&& crate::json::value_at(d, q + 1) matches Some((val, ve)) && forall|k: int|
                0 <= k < fields.len() && (#[trigger] fields[k]).name == key ==> suits(
                    fields[k].ty,
                    env,
                    env.len(),
                    val,
                ) && verbatim(fields[k].ty, env, env.len(), d, q + 1)
        }),
        crate::read::read_member(n, fields, env, d, h, block, off, base) is Some,
        base + crate::read::read_member(n, fields, env, d, h, block, off, base).unwrap().0.len()
            <= usize::MAX,
    ensures
        ({
            let (key, ke) = crate::json::string_at(d, h)->0;
            let (val, ve) = crate::json::value_at(d, crate::json::ws_end(d, ke) + 1)->0;
            let (ops, end) = crate::read::read_member(n, fields, env, d, h, block, off, base)->0;
            &&& member_placed(fields, env, key, val, block, off, base, ops, mem)
            &&& end == ve
        }),
    decreases n, fields, 0int,
{
    let (key, ke) = crate::json::string_at(d, h)->0;
    assert(crate::scan::space_end(d, h) == h);
    lemma_between(d, h);
    crate::json::lemma_string_at(d, h);
    crate::written::lemma_spaced(d, ke);
    crate::json::lemma_ws_end(d, ke);
    let at = crate::json::ws_end(d, ke) + 1;
    let (val, ve) = crate::json::value_at(d, at)->0;
    let (first, quote) = crate::scan::span(d, h);
    let raw = d.subrange(first, quote);
    match crate::read::field_at(fields, 0, raw) {
        None => {
            lemma_no_field(fields, 0, raw);
            crate::written::lemma_end(d, at);
        },
        Some(k) => {
            lemma_that_field(fields, 0, raw);
            let f = fields[k as int];
            crate::text::lemma_bytes_injective(f.name, key);
            crate::memory::lemma_fields_apart(fields, fields.len(), env, k as int);
            let p = (off + f.offset) as u64;
            lemma_read(n, f.ty, env, env.len(), d, at, block, p, base, mem);
        },
    }
}

/// Reading a text as a type, without building a document, leaves memory that holds
/// the document which the text writes down, and goes on where the value ends; and
/// it changes nothing but the bytes of the destination's value and blocks of its
/// own. This of every type whose parts do not overlap and which contains itself, if
/// at all, behind a pointer; of every document that is a value of the type; and of
/// text without escapes in keys and in the strings that are taken over, and without
/// form feeds as white space.
pub proof fn law_read_shows(n: nat, ty: TyV, d: Seq<u8>, mem: Mem)
    requires
        crate::memory::no_overlap(ty, Seq::empty()),
        crate::memory::span(ty, Seq::empty(), 0) is Some,
        d.len() <= u64::MAX,
        crate::written::plain_value(d, 0),
        verbatim(ty, Seq::empty(), 0, d, 0),
        crate::json::value_at(d, 0) matches Some((v, e)) && suits(ty, Seq::empty(), 0, v),
        crate::read::read(n, ty, Seq::empty(), d, 0, Block::Dest, 0, 0) matches Some((ops, end))
            && ops.len() <= usize::MAX,
    ensures
        ({
            let (ops, end) = crate::read::read(n, ty, Seq::empty(), d, 0, Block::Dest, 0, 0)->0;
            let (v, e) = crate::json::value_at(d, 0)->0;
            let last = ops.len() as int;
            &&& end == e
            &&& crate::memory::shows(
                ty,
                Seq::empty(),
                0,
                v,
                crate::memory::after(mem, ops),
                Block::Dest,
                0,
                0,
                last,
            )
            &&& crate::memory::confined(
                ops,
                crate::memory::area(
                    Block::Dest,
                    0,
                    crate::memory::span(ty, Seq::empty(), 0)->0,
                    0,
                    last,
                ),
            )
        }),
{
    assert(crate::memory::scope_ok(Seq::empty()));
    lemma_read(n, ty, Seq::empty(), 0, d, 0, Block::Dest, 0, 0, mem);
}

} // verus!
