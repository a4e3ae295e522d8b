//! Integers as bytes, and powers of two.
use vstd::prelude::*;

verus! {

/// The lowest `n` bytes of `x`, the lowest first.
pub open spec fn le(x: nat, n: nat) -> Seq<u8>
    decreases n,
{
    if n == 0 {
        Seq::empty()
    } else {
        seq![(x % 256) as u8] + le(x / 256, (n - 1) as nat)
    }
}

/// The number that bytes write down, the lowest first.
pub open spec fn from_le(b: Seq<u8>) -> nat
    decreases b.len(),
{
    if b.len() == 0 {
        0
    } else {
        b[0] as nat + 256 * from_le(b.skip(1))
    }
}

/// The two's complement of a signed number in sixteen bytes.
pub open spec fn as_unsigned(x: int) -> nat {
    if x < 0 {
        (x + 0x1_0000_0000_0000_0000_0000_0000_0000_0000) as nat
    } else {
        x as nat
    }
}

/// 256 to the power of `n`.
pub open spec fn pow256(n: nat) -> nat
    decreases n,
{
    if n == 0 {
        1
    } else {
        256 * pow256((n - 1) as nat)
    }
}

pub proof fn lemma_le_len(x: nat, n: nat)
    ensures
        le(x, n).len() == n,
    decreases n,
{
    if n > 0 {
        lemma_le_len(x / 256, (n - 1) as nat);
    }
}

/// Reading back the lowest `n` bytes of a number gives it, where it fits in
/// that many bytes.
pub proof fn law_bytes_read_back(x: nat, n: nat)
    requires
        x < pow256(n),
    ensures
        from_le(le(x, n)) == x,
    decreases n,
{
    if n > 0 {
        lemma_le_len(x / 256, (n - 1) as nat);
        assert(x / 256 < pow256((n - 1) as nat)) by (nonlinear_arith)
            requires
                x < 256 * pow256((n - 1) as nat),
        ;
        law_bytes_read_back(x / 256, (n - 1) as nat);
        assert(le(x, n).skip(1) =~= le(x / 256, (n - 1) as nat));
    }
}

pub proof fn lemma_pow256_pos(n: nat)
    ensures
        pow256(n) > 0,
    decreases n,
{
    if n > 0 {
        lemma_pow256_pos((n - 1) as nat);
    }
}

/// The lowest `n` bytes depend on the remainder by 256 to the power of `n` alone.
pub proof fn lemma_le_mod(x: nat, y: nat, n: nat)
    requires
        x % pow256(n) == y % pow256(n),
    ensures
        le(x, n) == le(y, n),
    decreases n,
{
    if n > 0 {
        let p = pow256((n - 1) as nat);
        lemma_pow256_pos((n - 1) as nat);
        assert(pow256(n) == 256 * p);
        vstd::arithmetic::div_mod::lemma_mod_mod(x as int, 256, p as int);
        vstd::arithmetic::div_mod::lemma_mod_mod(y as int, 256, p as int);
        assert(x % 256 == y % 256);
        vstd::arithmetic::div_mod::lemma_mod_breakdown(x as int, 256, p as int);
        vstd::arithmetic::div_mod::lemma_mod_breakdown(y as int, 256, p as int);
        assert((x / 256) % p == (y / 256) % p);
        lemma_le_mod(x / 256, y / 256, (n - 1) as nat);
    }
}

/// Taking a remainder first changes nothing.
pub proof fn lemma_le_rem(x: nat, k: nat, n: nat)
    requires
        n <= k,
    ensures
        le(x % pow256(k), n) == le(x, n),
{
    lemma_pow256_pos(k);
    lemma_pow256_pos(n);
    lemma_pow256_splits(n, (k - n) as nat);
    lemma_pow256_pos((k - n) as nat);
    vstd::arithmetic::div_mod::lemma_mod_mod(
        x as int,
        pow256(n) as int,
        pow256((k - n) as nat) as int,
    );
    lemma_le_mod(x % pow256(k), x, n);
}

proof fn lemma_pow256_splits(a: nat, b: nat)
    ensures
        pow256(a + b) == pow256(a) * pow256(b),
    decreases a,
{
    if a > 0 {
        lemma_pow256_splits((a - 1) as nat, b);
        assert(256 * (pow256((a - 1) as nat) * pow256(b)) == (256 * pow256((a - 1) as nat)) * pow256(
            b,
        )) by (nonlinear_arith);
        assert((a + b - 1) as nat == (a - 1) as nat + b);
    } else {
        assert(1 * pow256(b) == pow256(b)) by (nonlinear_arith);
    }
}

/// The lowest `n` bytes of `x`, the lowest first.
pub fn le_bytes(x: u128, n: u8) -> (r: Vec<u8>)
    ensures
        r@ == le(x as nat, n as nat),
{
    let mut out: Vec<u8> = Vec::new();
    let mut rest: u128 = x;
    let mut left: u8 = n;
    while left > 0
        invariant
            le(x as nat, n as nat) == out@ + le(rest as nat, left as nat),
        decreases left,
    {
        let ghost before = out@;
        let byte: u8 = (rest % 256) as u8;
        out.push(byte);
        proof {
            assert(before + (seq![byte] + le(rest as nat / 256, (left - 1) as nat)) =~= out@ + le(
                rest as nat / 256,
                (left - 1) as nat,
            ));
        }
        rest = rest / 256;
        left = left - 1;
    }
    assert(out@ + le(rest as nat, 0) =~= out@);
    out
}

/// The two's complement of a signed number.
pub fn unsigned_of(x: i128) -> (r: u128)
    ensures
        r == as_unsigned(x as int),
{
    if x < 0 {
        u128::MAX - ((-(x + 1)) as u128)
    } else {
        x as u128
    }
}

/// Whether `x` is a power of two.
pub open spec fn is_pow2(x: nat) -> bool
    decreases x,
{
    if x <= 1 {
        x == 1
    } else {
        x % 2 == 0 && is_pow2(x / 2)
    }
}

/// Whether `x` is a power of two.
pub fn power_of_two(x: u64) -> (r: bool)
    ensures
        r == is_pow2(x as nat),
{
    let mut rest: u64 = x;
    while rest > 1
        invariant
            is_pow2(x as nat) == is_pow2(rest as nat),
        decreases rest,
    {
        if rest % 2 != 0 {
            return false;
        }
        rest = rest / 2;
    }
    rest == 1
}

proof fn lemma_pow2_double(p: nat)
    requires
        is_pow2(p),
    ensures
        is_pow2(2 * p),
        p >= 1,
{
    assert((2 * p) / 2 == p);
    assert((2 * p) % 2 == 0);
}

/// No power of two lies strictly between one and its double.
proof fn lemma_pow2_gap(p: nat, q: nat)
    requires
        is_pow2(p),
        is_pow2(q),
        p < q,
    ensures
        2 * p <= q,
    decreases q,
{
    if p > 1 {
        lemma_pow2_gap(p / 2, q / 2);
    }
}

/// The smallest power of two that is not below `x`; nothing where it takes
/// more than 64 bits.
pub open spec fn least_pow2(x: u64) -> Option<u64> {
    if x > 0x8000_0000_0000_0000 {
        None
    } else {
        Some(
            choose|p: u64|
                is_pow2(p as nat) && p >= x && forall|q: u64|
                    is_pow2(q as nat) && q >= x ==> p <= q,
        )
    }
}

proof fn lemma_least_pow2_from(x: u64, p: u64)
    requires
        x <= 0x8000_0000_0000_0000,
        is_pow2(p as nat),
        forall|q: u64| is_pow2(q as nat) && q >= x ==> p <= q,
    ensures
        exists|r: u64| is_pow2(r as nat) && r >= x && forall|q: u64| is_pow2(q as nat) && q >= x ==> r <= q,
    decreases 0x1_0000_0000_0000_0000 - p,
{
    if p < x {
        lemma_pow2_double(p as nat);
        assert forall|q: u64| is_pow2(q as nat) && q >= x implies 2 * p <= q by {
            lemma_pow2_gap(p as nat, q as nat);
        }
        lemma_least_pow2_from(x, (2 * p) as u64);
    }
}

/// Up to 2^63 there is such a power.
pub proof fn law_least_pow2_is_least(x: u64)
    ensures
        least_pow2(x) is Some <==> x <= 0x8000_0000_0000_0000,
        least_pow2(x) matches Some(p) ==> is_pow2(p as nat) && p >= x && forall|q: u64|
            is_pow2(q as nat) && q >= x ==> p <= q,
{
    if x <= 0x8000_0000_0000_0000 {
        assert(is_pow2(1));
        assert forall|q: u64| is_pow2(q as nat) && q >= x implies 1 <= q by {}
        lemma_least_pow2_from(x, 1);
    }
}

/// The smallest power of two that is not below `x`; nothing where it takes
/// more than 64 bits.
pub fn next_power_of_two(x: u64) -> (r: Option<u64>)
    ensures
        r == least_pow2(x),
        r is Some ==> is_pow2(r->0 as nat) && r->0 >= x && forall|q: u64|
            is_pow2(q as nat) && q >= x ==> r->0 <= q,
{
    if x > 0x8000_0000_0000_0000 {
        return None;
    }
    let mut p: u64 = 1;
    while p < x
        invariant
            is_pow2(p as nat),
            x <= 0x8000_0000_0000_0000,
            forall|q: u64| is_pow2(q as nat) && q >= x ==> p <= q,
        decreases 0x1_0000_0000_0000_0000 - p,
    {
        proof {
            lemma_pow2_double(p as nat);
            assert forall|q: u64| is_pow2(q as nat) && q >= x implies 2 * p <= q by {
                lemma_pow2_gap(p as nat, q as nat);
            }
        }
        p = p * 2;
    }
    proof {
        let c = choose|p: u64|
            is_pow2(p as nat) && p >= x && forall|q: u64|
                is_pow2(q as nat) && q >= x ==> p <= q;
        assert(c <= p && p <= c);
    }
    Some(p)
}

/// A signed number in its lowest bytes is worth itself, but for a multiple of what that
/// many bytes count to: two's complement.
pub proof fn law_signed_bytes_read_back(x: i128, n: nat)
    requires
        n <= 16,
    ensures
        from_le(le(as_unsigned(x as int), n)) == x as int % (pow256(n) as int),
{
    let y = as_unsigned(x as int);
    let m = pow256(n) as int;
    lemma_pow256_pos(n);
    lemma_le_rem(y, n, n);
    assert(y % pow256(n) < pow256(n)) by {
        vstd::arithmetic::div_mod::lemma_mod_bound(y as int, m);
    }
    law_bytes_read_back(y % pow256(n), n);
    if x < 0 {
        let r = pow256((16 - n) as nat) as int;
        lemma_pow256_splits(n, (16 - n) as nat);
        reveal_with_fuel(pow256, 17);
        assert(y == r * m + x) by (nonlinear_arith)
            requires
                y == x + 0x1_0000_0000_0000_0000_0000_0000_0000_0000int,
                m * r == 0x1_0000_0000_0000_0000_0000_0000_0000_0000int,
        ;
        vstd::arithmetic::div_mod::lemma_mod_multiples_vanish(r, x as int, m);
        assert(m * r + x == r * m + x) by (nonlinear_arith);
    }
}

} // verus!
