//! Decimal integers written as text: an optional sign, then digits.

use vstd::prelude::*;
use vstd::string::*;

use crate::text::chars_of;

verus! {

pub open spec fn is_digit(c: char) -> bool {
    '0' <= c && c <= '9'
}

/// The number that the first `k` characters of `s` write down, if they are all
/// digits.
pub open spec fn dec_prefix(s: Seq<char>, k: nat) -> Option<nat>
    decreases k,
{
    if k == 0 {
        Some(0)
    } else {
        match dec_prefix(s, (k - 1) as nat) {
            Some(n) => if is_digit(s[k - 1]) {
                Some(10 * n + (s[k - 1] as nat - '0' as nat) as nat)
            } else {
                None
            },
            None => None,
        }
    }
}

/// The number that `s` writes down: at least one digit, and only digits.
pub open spec fn dec_value(s: Seq<char>) -> Option<nat> {
    if s.len() == 0 {
        None
    } else {
        dec_prefix(s, s.len())
    }
}

/// An unsigned number: digits, with or without a leading plus.
pub open spec fn unsigned_value(s: Seq<char>) -> Option<nat> {
    if s.len() > 0 && s[0] == '+' {
        dec_value(s.skip(1))
    } else {
        dec_value(s)
    }
}

/// A signed number: digits, with or without a leading plus or minus.
pub open spec fn signed_value(s: Seq<char>) -> Option<int> {
    if s.len() > 0 && s[0] == '-' {
        match dec_value(s.skip(1)) {
            Some(n) => Some(-(n as int)),
            None => None,
        }
    } else {
        match unsigned_value(s) {
            Some(n) => Some(n as int),
            None => None,
        }
    }
}

/// The unsigned number in `s`, where it fits in 128 bits.
pub open spec fn u128_text(s: Seq<char>) -> Option<nat> {
    match unsigned_value(s) {
        Some(n) => if n <= u128::MAX {
            Some(n)
        } else {
            None
        },
        None => None,
    }
}

/// The signed number in `s`, where it fits in 128 bits.
pub open spec fn i128_text(s: Seq<char>) -> Option<int> {
    match signed_value(s) {
        Some(n) => if i128::MIN <= n <= i128::MAX {
            Some(n)
        } else {
            None
        },
        None => None,
    }
}

/// A longer run of digits is worth no less.
pub(crate) proof fn lemma_dec_prefix_grows(s: Seq<char>, j: nat, k: nat)
    requires
        j <= k,
    ensures
        dec_prefix(s, j) is None ==> dec_prefix(s, k) is None,
        dec_prefix(s, j) is Some && dec_prefix(s, k) is Some ==> dec_prefix(s, j)->0 <= dec_prefix(
            s,
            k,
        )->0,
    decreases k - j,
{
    if j < k {
        lemma_dec_prefix_grows(s, j, (k - 1) as nat);
    }
}

/// The digits of `cs` from `from` on, where they fit in 128 bits.
fn parse_digits(cs: &Vec<char>, from: usize) -> (r: Option<u128>)
    requires
        from <= cs@.len(),
    ensures
        match dec_value(cs@.skip(from as int)) {
            Some(n) => if n <= u128::MAX {
                r is Some && r->0 == n
            } else {
                r is None
            },
            None => r is None,
        },
{
    let ghost s = cs@.skip(from as int);
    if from == cs.len() {
        return None;
    }
    let mut acc: u128 = 0;
    let mut k: usize = from;
    while k < cs.len()
        invariant
            from <= k <= cs@.len(),
            s == cs@.skip(from as int),
            s.len() > 0,
            dec_prefix(s, (k - from) as nat) == Some(acc as nat),
        decreases cs@.len() - k,
    {
        let c: char = cs[k];
        let ghost done = (k - from) as nat;
        assert(s[done as int] == c);
        assert(dec_prefix(s, (done + 1) as nat) is Some <==> is_digit(c));
        proof {
            lemma_dec_prefix_grows(s, (done + 1) as nat, s.len());
        }
        if c < '0' || c > '9' {
            return None;
        }
        let d: u128 = (c as u32 - '0' as u32) as u128;
        assert(dec_prefix(s, (done + 1) as nat) == Some((10 * acc + d) as nat));
        match acc.checked_mul(10) {
            None => {
                return None;
            },
            Some(t) => match t.checked_add(d) {
                None => {
                    return None;
                },
                Some(n) => {
                    acc = n;
                },
            },
        }
        k = k + 1;
    }
    Some(acc)
}

/// Read an unsigned 128-bit number.
pub fn parse_u128(s: &str) -> (r: Option<u128>)
    ensures
        match u128_text(s@) {
            Some(n) => r is Some && r->0 == n,
            None => r is None,
        },
{
    let cs: Vec<char> = chars_of(s);
    if cs.len() > 0 && cs[0] == '+' {
        parse_digits(&cs, 1)
    } else {
        assert(cs@.skip(0) =~= cs@);
        parse_digits(&cs, 0)
    }
}

/// Read a signed 128-bit number.
pub fn parse_i128(s: &str) -> (r: Option<i128>)
    ensures
        match i128_text(s@) {
            Some(n) => r is Some && r->0 == n,
            None => r is None,
        },
{
    let cs: Vec<char> = chars_of(s);
    if cs.len() > 0 && cs[0] == '-' {
        match parse_digits(&cs, 1) {
            Some(n) => if n <= 0x7fff_ffff_ffff_ffff_ffff_ffff_ffff_ffff {
                Some(-(n as i128))
            } else if n == 0x8000_0000_0000_0000_0000_0000_0000_0000 {
                Some(i128::MIN)
            } else {
                None
            },
            None => None,
        }
    } else {
        match parse_u128(s) {
            Some(n) => if n <= 0x7fff_ffff_ffff_ffff_ffff_ffff_ffff_ffff {
                Some(n as i128)
            } else {
                None
            },
            None => None,
        }
    }
}

/// A text of decimal digits is worth its number: with a sign before it where there may
/// be one, and as far as 128 bits hold it.
pub proof fn law_text_is_worth_its_number(n: nat)
    ensures
        dec_value(crate::jit::decimal(n)) == Some(n),
        u128_text(crate::jit::decimal(n)) == (if n <= u128::MAX {
            Some(n)
        } else {
            None
        }),
        u128_text(seq!['+'] + crate::jit::decimal(n)) == u128_text(crate::jit::decimal(n)),
        u128_text(seq!['-'] + crate::jit::decimal(n)) is None,
        i128_text(crate::jit::decimal(n)) == (if n <= i128::MAX {
            Some(n as int)
        } else {
            None
        }),
        i128_text(seq!['+'] + crate::jit::decimal(n)) == i128_text(crate::jit::decimal(n)),
        i128_text(seq!['-'] + crate::jit::decimal(n)) == (if 0 - n >= i128::MIN {
            Some(0 - n)
        } else {
            None
        }),
{
    let d = crate::jit::decimal(n);
    crate::tuple::lemma_decimal_value(n);
    let plus = seq!['+'] + d;
    let minus = seq!['-'] + d;
    assert(is_digit(d[0]));
    assert(plus.skip(1) =~= d);
    assert(minus.skip(1) =~= d);
    assert(minus[0] == '-');
    assert(dec_value(minus) is None) by {
        lemma_not_digits(minus, minus.len());
    }
}

proof fn lemma_not_digits(s: Seq<char>, k: nat)
    requires
        0 < k <= s.len(),
        !is_digit(s[0]),
    ensures
        dec_prefix(s, k) is None,
    decreases k,
{
    if k > 1 {
        lemma_not_digits(s, (k - 1) as nat);
    }
}

} // verus!
