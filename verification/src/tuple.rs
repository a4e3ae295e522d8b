//! Tuples. Their members are named `__0`, `__1` and so on, and are laid out in
//! any order; bound from an array they go by number.
use crate::plan::{FieldTy, FieldV};
use crate::text::chars_of;
use vstd::prelude::*;
use vstd::string::*;

verus! {

/// Whether a name is that of a tuple's member: two underscores and a number.
pub open spec fn is_positional(name: Seq<char>) -> bool {
    &&& name.len() > 2
    &&& name[0] == '_'
    &&& name[1] == '_'
    &&& forall|k: int| 2 <= k < name.len() ==> crate::number::is_digit(#[trigger] name[k])
}

/// The number in the name of a tuple's member; one that takes more than 32 bits
/// counts as the greatest that does not.
pub open spec fn position(name: Seq<char>) -> nat {
    match crate::number::dec_value(name.skip(2)) {
        Some(n) => if n <= u32::MAX {
            n
        } else {
            u32::MAX as nat
        },
        None => u32::MAX as nat,
    }
}

/// Whether fields are those of a tuple: there are some, and all of them are
/// positional.
pub open spec fn is_tuple(fields: Seq<FieldV>) -> bool {
    fields.len() > 0 && forall|k: int|
        0 <= k < fields.len() ==> is_positional(#[trigger] fields[k].name)
}

/// A field put into its place: after the last one whose position is not greater.
pub open spec fn placed(fields: Seq<FieldV>, f: FieldV) -> Seq<FieldV>
    decreases fields.len(),
{
    if fields.len() == 0 || position(fields.last().name) <= position(f.name) {
        fields.push(f)
    } else {
        placed(fields.drop_last(), f).push(fields.last())
    }
}

/// The first `n` fields by position, those of one position in their order.
pub open spec fn by_position(fields: Seq<FieldV>, n: nat) -> Seq<FieldV>
    decreases n,
{
    if n == 0 || n > fields.len() {
        Seq::empty()
    } else {
        placed(by_position(fields, (n - 1) as nat), fields[n - 1])
    }
}

proof fn lemma_placed(fields: Seq<FieldV>, f: FieldV, j: int)
    requires
        0 <= j <= fields.len(),
        forall|k: int| j <= k < fields.len() ==> position(#[trigger] fields[k].name) > position(
            f.name,
        ),
        j > 0 ==> position(fields[j - 1].name) <= position(f.name),
    ensures
        placed(fields, f) == fields.insert(j, f),
    decreases fields.len(),
{
    if j < fields.len() {
        lemma_placed(fields.drop_last(), f, j);
        assert(fields.drop_last().insert(j, f).push(fields.last()) =~= fields.insert(j, f));
    } else {
        assert(fields.push(f) =~= fields.insert(j, f));
    }
}

/// Whether positions ascend.
pub open spec fn ascend(fields: Seq<FieldV>) -> bool {
    forall|i: int, j: int|
        0 <= i < j < fields.len() ==> position(#[trigger] fields[i].name) <= position(
            #[trigger] fields[j].name,
        )
}

proof fn lemma_placed_ascends(fields: Seq<FieldV>, f: FieldV)
    requires
        ascend(fields),
    ensures
        ascend(placed(fields, f)),
        placed(fields, f).to_multiset() == fields.to_multiset().insert(f),
        forall|k: int|
            0 <= k < placed(fields, f).len() ==> #[trigger] placed(fields, f)[k] == f
                || fields.contains(placed(fields, f)[k]),
    decreases fields.len(),
{
    broadcast use vstd::seq_lib::group_to_multiset_ensures;

    if fields.len() == 0 || position(fields.last().name) <= position(f.name) {
        assert forall|i: int, j: int| 0 <= i < j < fields.push(f).len() implies position(
            #[trigger] fields.push(f)[i].name,
        ) <= position(#[trigger] fields.push(f)[j].name) by {
            if j == fields.len() {
                assert(position(fields[i].name) <= position(fields[fields.len() - 1].name));
            }
        }
    } else {
        let init = fields.drop_last();
        lemma_placed_ascends(init, f);
        let p = placed(init, f);
        assert(fields =~= init.push(fields.last()));
        assert forall|k: int| 0 <= k < p.len() implies position(#[trigger] p[k].name) <= position(
            fields.last().name,
        ) && (p[k] == f || fields.contains(p[k])) by {
            if p[k] != f {
                let i = choose|i: int| 0 <= i < init.len() && init[i] == p[k];
                assert(fields[i] == p[k]);
                assert(position(fields[i].name) <= position(fields[fields.len() - 1].name));
            }
        }
        assert(fields.contains(fields.last())) by {
            assert(fields[fields.len() - 1] == fields.last());
        }
    }
}

/// Sorting a tuple's fields keeps them and puts their positions in order.
pub proof fn law_fields_by_position(fields: Seq<FieldV>, n: nat)
    requires
        n <= fields.len(),
    ensures
        ascend(by_position(fields, n)),
        by_position(fields, n).to_multiset() == fields.take(n as int).to_multiset(),
    decreases n,
{
    broadcast use vstd::seq_lib::group_to_multiset_ensures;

    if n > 0 {
        law_fields_by_position(fields, (n - 1) as nat);
        lemma_placed_ascends(by_position(fields, (n - 1) as nat), fields[n - 1]);
        assert(fields.take(n as int) =~= fields.take(n - 1).push(fields[n - 1]));
    } else {
        assert(fields.take(0) =~= Seq::<FieldV>::empty());
    }
}

/// Whether a name is that of a tuple's member.
fn positional(name: &str) -> (r: bool)
    ensures
        r == is_positional(name@),
{
    let s: Vec<char> = chars_of(name);
    if !(s.len() > 2 && s[0] == '_' && s[1] == '_') {
        return false;
    }
    let mut k: usize = 2;
    while k < s.len()
        invariant
            2 <= k <= s@.len(),
            s@ == name@,
            forall|j: int| 2 <= j < k ==> crate::number::is_digit(#[trigger] s@[j]),
        decreases s@.len() - k,
    {
        if !('0' <= s[k] && s[k] <= '9') {
            assert(!crate::number::is_digit(name@[k as int]));
            return false;
        }
        k = k + 1;
    }
    true
}

proof fn lemma_dec_prefix_grows(s: Seq<char>, i: nat, j: nat)
    requires
        i <= j,
        dec_prefix_some(s, j),
    ensures
        dec_prefix_some(s, i),
        crate::number::dec_prefix(s, i)->0 <= crate::number::dec_prefix(s, j)->0,
    decreases j - i,
{
    if i < j {
        lemma_dec_prefix_grows(s, i, (j - 1) as nat);
    }
}

spec fn dec_prefix_some(s: Seq<char>, k: nat) -> bool {
    crate::number::dec_prefix(s, k) is Some
}

proof fn lemma_dec_prefix_digits(s: Seq<char>, k: nat)
    requires
        k <= s.len(),
        forall|j: int| 0 <= j < k ==> crate::number::is_digit(#[trigger] s[j]),
    ensures
        dec_prefix_some(s, k),
    decreases k,
{
    if k > 0 {
        lemma_dec_prefix_digits(s, (k - 1) as nat);
    }
}

/// The number in the name of a tuple's member.
fn position_of(name: &str) -> (r: u32)
    requires
        is_positional(name@),
    ensures
        r == position(name@),
{
    let s: Vec<char> = chars_of(name);
    let ghost digits = s@.skip(2);
    let n: usize = s.len();
    let mut acc: u32 = 0;
    let mut k: usize = 2;
    proof {
        assert forall|j: int| 0 <= j < digits.len() implies crate::number::is_digit(
            #[trigger] digits[j],
        ) by {
            assert(crate::number::is_digit(name@[j + 2]));
        }
        lemma_dec_prefix_digits(digits, digits.len());
    }
    while k < n
        invariant
            2 <= k <= n,
            n == s@.len(),
            s@ == name@,
            digits == s@.skip(2),
            is_positional(name@),
            dec_prefix_some(digits, digits.len()),
            crate::number::dec_prefix(digits, (k - 2) as nat) == Some(acc as nat),
        decreases n - k,
    {
        assert(crate::number::is_digit(name@[k as int]));
        let d: u32 = s[k] as u32 - 48;
        let next: u64 = acc as u64 * 10 + d as u64;
        proof {
            assert(digits[k - 2] == s@[k as int]);
            assert(crate::number::dec_prefix(digits, (k - 1) as nat) == Some(next as nat));
            lemma_dec_prefix_grows(digits, (k - 1) as nat, digits.len());
        }
        if next > u32::MAX as u64 {
            return u32::MAX;
        }
        acc = next as u32;
        k = k + 1;
    }
    acc
}

/// Whether fields are those of a tuple.
pub fn tuple_like(fields: &Vec<FieldTy>) -> (r: bool)
    ensures
        r == is_tuple(crate::plan::fields_view(fields@)),
{
    let ghost fs = crate::plan::fields_view(fields@);
    if fields.len() == 0 {
        return false;
    }
    let mut k: usize = 0;
    while k < fields.len()
        invariant
            k <= fields@.len(),
            fs == crate::plan::fields_view(fields@),
            forall|j: int| 0 <= j < k ==> is_positional(#[trigger] fs[j].name),
        decreases fields@.len() - k,
    {
        assert(fs[k as int].name == fields@[k as int].name@);
        if !positional(fields[k].name.as_str()) {
            assert(!is_positional(fs[k as int].name));
            return false;
        }
        k = k + 1;
    }
    true
}

/// Puts a tuple's fields into the order of their positions.
pub fn sort_fields(fields: Vec<FieldTy>) -> (r: Vec<FieldTy>)
    requires
        is_tuple(crate::plan::fields_view(fields@)),
    ensures
        crate::plan::fields_view(r@) == by_position(
            crate::plan::fields_view(fields@),
            fields@.len(),
        ),
{
    let ghost fs = crate::plan::fields_view(fields@);
    let mut rest: Vec<FieldTy> = fields;
    let mut out: Vec<FieldTy> = Vec::new();
    let ghost mut n: nat = 0;
    assert(crate::plan::fields_view(out@) =~= Seq::<FieldV>::empty());
    while rest.len() > 0
        invariant
            n + rest@.len() == fs.len(),
            is_tuple(fs),
            crate::plan::fields_view(rest@) =~= fs.skip(n as int),
            crate::plan::fields_view(out@) == by_position(fs, n),
            forall|k: int| 0 <= k < out@.len() ==> is_positional(#[trigger] out@[k].name@),
        decreases rest@.len(),
    {
        assert(crate::plan::fields_view(rest@)[0] == fs[n as int]);
        let ghost old_rest = rest@;
        let f: FieldTy = rest.remove(0);
        assert(f@ == fs[n as int]);
        assert(is_positional(fs[n as int].name));
        let p: u32 = position_of(f.name.as_str());
        let mut j: usize = out.len();
        let ghost before = crate::plan::fields_view(out@);
        while j > 0 && position_of(out[j - 1].name.as_str()) > p
            invariant
                j <= out@.len(),
                before == crate::plan::fields_view(out@),
                p == position(f@.name),
                forall|k: int| 0 <= k < out@.len() ==> is_positional(#[trigger] out@[k].name@),
                forall|k: int|
                    j <= k < before.len() ==> position(#[trigger] before[k].name) > position(
                        f@.name,
                    ),
            decreases j,
        {
            assert(before[j - 1].name == out@[j - 1].name@);
            j = j - 1;
        }
        proof {
            if j > 0 {
                assert(before[j - 1].name == out@[j - 1].name@);
            }
            lemma_placed(before, f@, j as int);
        }
        let ghost fv = f@;
        let ghost old_out = out@;
        out.insert(j, f);
        proof {
            assert(crate::plan::fields_view(out@) =~= before.insert(j as int, fv));
            assert forall|k: int| 0 <= k < out@.len() implies is_positional(
                #[trigger] out@[k].name@,
            ) by {
                if k < j {
                    assert(out@[k] == old_out[k]);
                } else if k > j {
                    assert(out@[k] == old_out[k - 1]);
                }
            }
            assert forall|k: int| 0 <= k < rest@.len() implies #[trigger] crate::plan::fields_view(
                rest@,
            )[k] == fs.skip(n as int + 1)[k] by {
                assert(crate::plan::fields_view(old_rest)[k + 1] == fs.skip(n as int)[k + 1]);
            }
            n = n + 1;
            assert(crate::plan::fields_view(rest@) =~= fs.skip(n as int));
        }
    }
    out
}

proof fn lemma_dec_prefix_same(s: Seq<char>, t: Seq<char>, k: nat)
    requires
        k <= s.len(),
        k <= t.len(),
        forall|i: int| 0 <= i < k ==> s[i] == t[i],
    ensures
        crate::number::dec_prefix(s, k) == crate::number::dec_prefix(t, k),
    decreases k,
{
    if k > 0 {
        lemma_dec_prefix_same(s, t, (k - 1) as nat);
    }
}

pub(crate) proof fn lemma_decimal_value(n: nat)
    ensures
        crate::jit::decimal(n).len() > 0,
        crate::number::dec_prefix(crate::jit::decimal(n), crate::jit::decimal(n).len()) == Some(n),
        forall|k: int| 0 <= k < crate::jit::decimal(n).len() ==> crate::number::is_digit(#[trigger] crate::jit::decimal(n)[k]),
    decreases n,
{
    let s = crate::jit::decimal(n);
    if n >= 10 {
        let t = crate::jit::decimal(n / 10);
        lemma_decimal_value(n / 10);
        lemma_dec_prefix_same(s, t, t.len());
        assert(s.len() == t.len() + 1);
        assert(s[t.len() as int] == crate::jit::digit(n % 10));
        assert(crate::number::dec_prefix(s, t.len()) == Some(n / 10));
        assert forall|k: int| 0 <= k < s.len() implies crate::number::is_digit(#[trigger] s[k]) by {
            if k < t.len() {
                assert(s[k] == t[k]);
            }
        }
    } else {
        assert(s[0] == crate::jit::digit(n));
        assert(crate::number::dec_prefix(s, 0) == Some(0nat));
    }
}

/// The member of a tuple that is named by two underscores and a number in decimal digits
/// stands at that number.
pub proof fn law_member_stands_at_its_number(n: nat)
    requires
        n <= u32::MAX,
    ensures
        is_positional(seq!['_', '_'] + crate::jit::decimal(n)),
        position(seq!['_', '_'] + crate::jit::decimal(n)) == n,
{
    let d = crate::jit::decimal(n);
    let s = seq!['_', '_'] + d;
    lemma_decimal_value(n);
    assert(s.skip(2) =~= d);
    assert forall|k: int| 2 <= k < s.len() implies crate::number::is_digit(#[trigger] s[k]) by {
        assert(s[k] == d[k - 2]);
    }
}

/// A member of a tuple is named by two underscores and decimal digits, at least one, and
/// by nothing else.
pub proof fn law_members_are_named_by_digits(s: Seq<char>, d: Seq<char>)
    ensures
        is_positional(seq!['_', '_'] + d) <==> d.len() > 0 && forall|k: int|
            0 <= k < d.len() ==> '0' <= #[trigger] d[k] <= '9',
        is_positional(s) ==> s == seq!['_', '_'] + s.skip(2),
{
    let t = seq!['_', '_'] + d;
    if is_positional(t) {
        assert forall|k: int| 0 <= k < d.len() implies '0' <= #[trigger] d[k] <= '9' by {
            assert(crate::number::is_digit(t[k + 2]));
        }
    }
    if d.len() > 0 && forall|k: int| 0 <= k < d.len() ==> '0' <= #[trigger] d[k] <= '9' {
        assert forall|k: int| 2 <= k < t.len() implies crate::number::is_digit(#[trigger] t[k]) by {
            assert(t[k] == d[k - 2]);
        }
    }
    if is_positional(s) {
        assert(s =~= seq!['_', '_'] + s.skip(2));
    }
}

} // verus!
