//! Signed LEB128, the encoding of the offset operand of `DW_OP_fbreg` and
//! `DW_OP_breg<n>`: seven bits per byte, least significant group first, the
//! high bit of a byte saying that another one follows, bit 6 of the last byte
//! being the sign.

use vstd::arithmetic::power2::*;
use vstd::bits::*;
use vstd::prelude::*;

verus! {

/// The number of bytes of the encoding that starts at index `i`: up to and
/// with the first byte whose high bit is clear. `None` where there is none.
pub open spec fn sleb_len(b: Seq<u8>, i: int) -> Option<nat>
    decreases b.len() - i,
{
    if i < 0 || i >= b.len() {
        None
    } else if b[i] < 0x80 {
        Some(1)
    } else {
        match sleb_len(b, i + 1) {
            Some(n) => Some(n + 1),
            None => None,
        }
    }
}

/// The integer that the encoding starting at index `i` stands for.
pub open spec fn sleb_int(b: Seq<u8>, i: int) -> int
    decreases b.len() - i,
{
    if i < 0 || i >= b.len() {
        0
    } else if b[i] < 0x40 {
        b[i] as int
    } else if b[i] < 0x80 {
        b[i] - 0x80
    } else {
        (b[i] - 0x80) + 0x80 * sleb_int(b, i + 1)
    }
}

/// The two's complement reading of the low 64 bits of `x`.
pub open spec fn wrap_i64(x: int) -> int {
    let m = x % 0x1_0000_0000_0000_0000;
    if m < 0x8000_0000_0000_0000 {
        m
    } else {
        m - 0x1_0000_0000_0000_0000
    }
}

/// An encoding that a 64-bit decoder takes: it ends, within ten bytes.
pub open spec fn sleb_ok(b: Seq<u8>) -> bool {
    sleb_len(b, 0) is Some && sleb_len(b, 0)->0 <= 10
}

/// What decoding `b` gives: the value and the number of bytes used.
pub open spec fn spec_sleb128(b: Seq<u8>) -> (int, nat) {
    (wrap_i64(sleb_int(b, 0)), sleb_len(b, 0)->0)
}

proof fn lemma_or_is_add(acc: u64, g: u64, shift: u64)
    requires
        shift <= 56,
        acc < (1u64 << shift),
        g < 128,
    ensures
        (acc | (g << shift)) == acc + (g << shift),
        acc + (g << shift) < (1u64 << ((shift + 7) as u64)),
{
    assert((acc | (g << shift)) == acc + (g << shift)) by (bit_vector)
        requires
            shift <= 56,
            acc < (1u64 << shift),
            g < 128,
    ;
    assert(acc + (g << shift) < (1u64 << ((shift + 7) as u64))) by (bit_vector)
        requires
            shift <= 56,
            acc < (1u64 << shift),
            g < 128,
    ;
}

proof fn lemma_sign_fill(acc: u64, shift: u64)
    requires
        shift < 64,
        acc < (1u64 << shift),
    ensures
        (acc | (0xffff_ffff_ffff_ffffu64 << shift)) == acc + (0x1_0000_0000_0000_0000int - (1u64
            << shift)),
{
    assert((acc | (0xffff_ffff_ffff_ffffu64 << shift)) == acc + (0xffff_ffff_ffff_ffffu64 << shift)
        && (0xffff_ffff_ffff_ffffu64 << shift) + (1u64 << shift) == 0x1_0000_0000_0000_0000)
        by (bit_vector)
        requires
            shift < 64,
            acc < (1u64 << shift),
    ;
}

proof fn lemma_shl(x: u64, shift: u64)
    requires
        shift <= 63,
        x * pow2(shift as nat) <= u64::MAX,
    ensures
        (x << shift) == x * pow2(shift as nat),
{
    lemma_u64_shl_is_mul(x, shift);
}

/// Decode one signed LEB128 number from the front of `b`: its value and how
/// many bytes it takes.
pub fn sleb128(b: &[u8]) -> (r: (i64, usize))
    requires
        sleb_ok(b@),
    ensures
        r.0 == spec_sleb128(b@).0,
        r.1 == spec_sleb128(b@).1,
{
    let mut acc: u64 = 0;
    let mut shift: u64 = 0;
    let mut i: usize = 0;
    proof {
        lemma2_to64();
        lemma2_to64_rest();
    }
    assert(acc < (1u64 << shift)) by {
        assert((1u64 << 0u64) == 1) by (bit_vector);
    }
    loop
        invariant
            sleb_ok(b@),
            0 <= i < b@.len(),
            i <= 9,
            shift == 7 * i,
            sleb_len(b@, i as int) is Some,
            sleb_len(b@, 0)->0 == i + sleb_len(b@, i as int)->0,
            acc < (1u64 << shift),
            acc + pow2(shift as nat) * sleb_int(b@, i as int) == sleb_int(b@, 0),
        decreases 10 - i,
    {
        let byte: u8 = b[i];
        let group: u64 = (byte & 0x7f) as u64;
        assert((byte & 0x7f) == byte % 128) by (bit_vector);
        assert((byte & 0x40 != 0) <==> (byte % 128 >= 64)) by (bit_vector);
        assert((byte & 0x80 == 0) <==> (byte < 0x80)) by (bit_vector);
        let ghost old_acc = acc;
        proof {
            lemma2_to64();
            lemma2_to64_rest();
            lemma_pow2_adds(shift as nat, 7);
        }
        acc = acc | (group << shift);
        if byte & 0x80 == 0 {
            if i < 9 && (byte & 0x40) != 0 {
                proof {
                    lemma_or_is_add(old_acc, group, shift);
                    lemma_sign_fill(acc, (shift + 7) as u64);
                }
                acc = acc | (0xffff_ffff_ffff_ffffu64 << (shift + 7));
            }
            proof {
                lemma_last_group(old_acc, group, shift, acc, sleb_int(b@, 0));
            }
            let value: i64 = #[verifier::truncate] (acc as i64);
            assert(value == wrap_i64(acc as int)) by {
                assert(acc < 0x8000_0000_0000_0000u64 ==> acc as i64 == acc) by (bit_vector);
                assert(acc >= 0x8000_0000_0000_0000u64 ==> acc as i64 == acc
                    - 0x1_0000_0000_0000_0000) by (bit_vector);
            }
            return (value, i + 1);
        }
        proof {
            reveal_with_fuel(sleb_len, 2);
            assert(i < 9);
            lemma_or_is_add(old_acc, group, shift);
            lemma_next_group(old_acc, group, shift, sleb_int(b@, i + 1));
        }
        shift = shift + 7;
        i = i + 1;
    }
}

proof fn lemma_next_group(acc: u64, group: u64, shift: u64, rest: int)
    requires
        shift <= 56,
        group < 128,
    ensures
        acc + (group << shift) + pow2((shift + 7) as nat) * rest == acc + pow2(shift as nat) * (group
            + 0x80 * rest),
{
    lemma2_to64();
    lemma2_to64_rest();
    lemma_pow2_adds(shift as nat, 7);
    lemma_group_fits(group, shift);
    lemma_shl(group, shift);
    let p = pow2(shift as nat) as int;
    assert(p * (group + 0x80 * rest) == group * p + (p * 0x80) * rest) by (nonlinear_arith);
}

proof fn lemma_group_fits(group: u64, shift: u64)
    requires
        shift <= 56,
        group < 128,
    ensures
        group * pow2(shift as nat) <= u64::MAX,
{
    lemma2_to64();
    lemma2_to64_rest();
    if shift < 56 {
        lemma_pow2_strictly_increases(shift as nat, 56);
    }
    let p = pow2(shift as nat) as int;
    assert(p <= 0x100_0000_0000_0000);
    assert(group * p <= 127 * 0x100_0000_0000_0000) by (nonlinear_arith)
        requires
            0 <= group <= 127,
            0 <= p <= 0x100_0000_0000_0000,
    ;
}

/// The last group: what was accumulated, read in two's complement, is the
/// whole number modulo 2^64.
proof fn lemma_last_group(old_acc: u64, group: u64, shift: u64, acc: u64, whole: int)
    requires
        shift <= 63,
        shift % 7 == 0,
        group < 128,
        old_acc < (1u64 << shift),
        ({
            let v = if group >= 64 {
                group - 128
            } else {
                group as int
            };
            old_acc + pow2(shift as nat) * v == whole
        }),
        ({
            let mid = old_acc | (group << shift);
            acc == if shift < 63 && group >= 64 {
                mid | (0xffff_ffff_ffff_ffffu64 << ((shift + 7) as u64))
            } else {
                mid
            }
        }),
    ensures
        wrap_i64(whole) == wrap_i64(acc as int),
{
    lemma2_to64();
    lemma2_to64_rest();
    let p = pow2(shift as nat) as int;
    if shift < 63 {
        lemma_or_is_add(old_acc, group, shift);
        lemma_group_fits(group, shift);
        lemma_shl(group, shift);
        if group >= 64 {
            let s7 = (shift + 7) as u64;
            lemma_sign_fill((old_acc | (group << shift)), s7);
            lemma_pow2_adds(shift as nat, 7);
            if s7 < 63 {
                lemma_pow2_strictly_increases(s7 as nat, 63);
            }
            lemma_shl(1, s7);
            assert(p * (group - 128) == group * p - p * 128) by (nonlinear_arith);
            assert(acc == whole + 0x1_0000_0000_0000_0000);
        } else {
            assert(acc == whole) by (nonlinear_arith)
                requires
                    acc == old_acc + group * p,
                    old_acc + p * group == whole,
            ;
        }
    } else {
        assert((old_acc | (group << 63)) == old_acc + (group % 2) * 0x8000_0000_0000_0000)
            by (bit_vector)
            requires
                old_acc < (1u64 << 63),
                group < 128,
        ;
        let v: int = if group >= 64 {
            group - 128
        } else {
            group as int
        };
        let k = v / 2;
        assert(v == 2 * k + group % 2);
        assert(shift == 63);
        assert(p == 0x8000_0000_0000_0000);
        assert(p * v == 0x8000_0000_0000_0000 * v) by (nonlinear_arith)
            requires
                p == 0x8000_0000_0000_0000,
        ;
        assert(acc == old_acc + (group % 2) * 0x8000_0000_0000_0000);
        assert(whole == old_acc + p * v);
        let m = (group % 2) as int;
        assert(acc == old_acc + m * 0x8000_0000_0000_0000);
        assert(v == 2 * k + m);
        assert(whole == acc + 0x1_0000_0000_0000_0000 * k) by (nonlinear_arith)
            requires
                whole == old_acc + 0x8000_0000_0000_0000 * v,
                acc == old_acc + m * 0x8000_0000_0000_0000,
                v == 2 * k + m,
        ;
    }
}

proof fn lemma_sleb_len_first(b: Seq<u8>, i: int, j: int)
    requires
        0 <= i <= j <= b.len(),
        forall|k: int| i <= k < j ==> b[k] >= 0x80,
    ensures
        j < b.len() && b[j] < 0x80 ==> sleb_len(b, i) == Some((j - i + 1) as nat),
        j == b.len() ==> sleb_len(b, i) is None,
        sleb_len(b, i) is Some ==> sleb_len(b, i)->0 > j - i,
    decreases j - i,
{
    if i < j {
        lemma_sleb_len_first(b, i + 1, j);
    }
}

/// Decodes `b`; nothing where it holds no encoding that a 64-bit decoder takes.
pub fn try_sleb128(b: &[u8]) -> (r: Option<(i64, usize)>)
    ensures
        r is Some <==> sleb_ok(b@),
        r matches Some(got) ==> got.0 == spec_sleb128(b@).0 && got.1 == spec_sleb128(b@).1,
{
    let mut k: usize = 0;
    while k < 10 && k < b.len() && b[k] >= 0x80
        invariant
            k <= 10,
            k <= b@.len(),
            forall|j: int| 0 <= j < k ==> b@[j] >= 0x80,
        decreases 10 - k,
    {
        k = k + 1;
    }
    proof {
        lemma_sleb_len_first(b@, 0, k as int);
    }
    if k < 10 && k < b.len() {
        Some(sleb128(b))
    } else {
        None
    }
}

/// The encoding of an integer.
pub open spec fn sleb_encode(x: int) -> Seq<u8>
    decreases (if x < 0 {
        -x
    } else {
        x
    }),
{
    if -64 <= x < 64 {
        seq![(x % 128) as u8]
    } else {
        seq![(x % 128 + 128) as u8] + sleb_encode(x / 128)
    }
}

proof fn lemma_sleb_encode(x: int, pre: Seq<u8>, rest: Seq<u8>)
    ensures
        sleb_int(pre + sleb_encode(x) + rest, pre.len() as int) == x,
        sleb_len(pre + sleb_encode(x) + rest, pre.len() as int) == Some(sleb_encode(x).len()),
    decreases (if x < 0 {
        -x
    } else {
        x
    }),
{
    let b = pre + sleb_encode(x) + rest;
    let i = pre.len() as int;
    assert(b[i] == sleb_encode(x)[0]);
    if !(-64 <= x < 64) {
        let next = pre.push((x % 128 + 128) as u8);
        lemma_sleb_encode(x / 128, next, rest);
        assert(b =~= next + sleb_encode(x / 128) + rest);
    }
}

/// How many bytes an integer of at most `n` groups of seven bits takes.
proof fn lemma_sleb_encode_len(x: int, n: nat)
    requires
        n >= 1,
        -(pow2((7 * n - 1) as nat) as int) <= x < pow2((7 * n - 1) as nat),
    ensures
        sleb_encode(x).len() <= n,
    decreases n,
{
    if n == 1 {
        assert(pow2(6) == 64) by {
            lemma2_to64();
        }
    } else if !(-64 <= x < 64) {
        let m = (n - 1) as nat;
        lemma_pow2_adds(7, (7 * m - 1) as nat);
        assert(pow2(7) == 128) by {
            lemma2_to64();
        }
        let p = pow2((7 * m - 1) as nat) as int;
        assert(pow2((7 * n - 1) as nat) == 128 * p);
        assert(-p <= x / 128 < p) by (nonlinear_arith)
            requires
                -(128 * p) <= x < 128 * p,
        ;
        lemma_sleb_encode_len(x / 128, m);
    }
}

/// Decoding the encoding of a 64-bit integer gives it back, and says how long
/// the encoding is, whatever comes after it.
pub proof fn law_sleb_comes_back(x: i64, rest: Seq<u8>)
    ensures
        sleb_ok(sleb_encode(x as int) + rest),
        spec_sleb128(sleb_encode(x as int) + rest) == (x as int, sleb_encode(x as int).len()),
{
    lemma_sleb_encode(x as int, Seq::empty(), rest);
    assert(Seq::<u8>::empty() + sleb_encode(x as int) + rest =~= sleb_encode(x as int) + rest);
    assert(pow2(69) >= 0x8000_0000_0000_0000) by {
        lemma2_to64();
        lemma2_to64_rest();
        lemma_pow2_adds(5, 64);
    }
    lemma_sleb_encode_len(x as int, 10);
}

} // verus!
