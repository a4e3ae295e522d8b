//! The compact unwind table of a Mach-O file: whether what it says can be looked up.
//! It is a list of pages by address, each with a list of functions by address, and of
//! opcodes that the functions refer to by number.
use vstd::prelude::*;

verus! {

/// Two bytes as a number.
pub open spec fn half(d: Seq<u8>, i: int) -> int {
    d[i] + 0x100 * d[i + 1]
}

/// Four bytes as a number.
pub open spec fn whole(d: Seq<u8>, i: int) -> int {
    half(d, i) + 0x1_0000 * half(d, i + 2)
}

/// The kind of a page that lists functions by their addresses.
pub const REGULAR: u32 = 2;

/// The kind of a page that lists functions by how far they are from its own address,
/// each in one number with that of an opcode.
pub const COMPRESSED: u32 = 3;

/// Whether the functions of a regular page come in the order of their addresses.
pub open spec fn regular_kept(d: Seq<u8>, at: int) -> bool {
    &&& at + 8 <= d.len()
    &&& ({
        let first = at + half(d, at + 4);
        let n = half(d, at + 6);
        &&& first + 8 * n <= d.len()
        &&& forall|j: int| 1 <= j < n ==> whole(d, first + 8 * (j - 1)) <= #[trigger] whole(d, first + 8 * j)
    })
}

/// Whether a function of a compressed page has an address and an opcode.
pub open spec fn packed_kept(e: int, addr: int, opcodes: int) -> bool {
    addr + e % 0x100_0000 <= u32::MAX && e / 0x100_0000 < opcodes
}

/// Whether the functions of a compressed page come in the order of their addresses,
/// and each has an address and an opcode.
pub open spec fn compressed_kept(d: Seq<u8>, at: int, addr: int, shared: int) -> bool {
    &&& at + 12 <= d.len()
    &&& ({
        let first = at + half(d, at + 4);
        let n = half(d, at + 6);
        let opcodes = shared + half(d, at + 10);
        &&& first + 4 * n <= d.len()
        &&& forall|j: int| 0 <= j < n ==> packed_kept(#[trigger] whole(d, first + 4 * j), addr, opcodes)
        &&& forall|j: int|
            1 <= j < n ==> whole(d, first + 4 * (j - 1)) % 0x100_0000 <= (#[trigger] whole(d, first + 4 * j))
                % 0x100_0000
    })
}

/// Whether a page of an address can be searched.
pub open spec fn page_kept(d: Seq<u8>, at: int, addr: int, shared: int) -> bool {
    &&& at + 4 <= d.len()
    &&& whole(d, at) == REGULAR ==> regular_kept(d, at)
    &&& whole(d, at) == COMPRESSED ==> compressed_kept(d, at, addr, shared)
}

/// Whether every page can be searched, and they come in the order of their addresses.
pub open spec fn pages_kept(d: Seq<u8>, first: int, n: int, shared: int) -> bool {
    &&& first + 12 * n <= d.len()
    &&& forall|k: int|
        0 <= k < n ==> page_kept(d, whole(d, first + 12 * k + 4), #[trigger] whole(d, first + 12 * k), shared)
    &&& forall|k: int| 1 <= k < n ==> whole(d, first + 12 * (k - 1)) <= #[trigger] whole(d, first + 12 * k)
}

/// Whether whatever address is looked up in a table, the search ends at a function or
/// with nothing.
pub open spec fn kept(d: Seq<u8>) -> bool {
    d.len() >= 28 && pages_kept(d, whole(d, 20), whole(d, 24), whole(d, 8))
}

fn half_at(d: &[u8], i: usize) -> (r: u32)
    requires
        i + 2 <= d@.len(),
    ensures
        r == half(d@, i as int),
        r <= 0xffff,
{
    d[i] as u32 + 0x100 * d[i + 1] as u32
}

pub(crate) fn whole_at(d: &[u8], i: usize) -> (r: u32)
    requires
        i + 4 <= d@.len(),
    ensures
        r == whole(d@, i as int),
{
    assert(d@.len() == d.len());
    half_at(d, i) + 0x1_0000 * half_at(d, i + 2)
}

#[verifier::loop_isolation(false)]
fn is_regular_kept(d: &[u8], at: u64) -> (r: bool)
    requires
        at <= u32::MAX,
    ensures
        r == regular_kept(d@, at as int),
{
    let len: u64 = d.len() as u64;
    if at + 8 > len {
        return false;
    }
    let first: u64 = at + half_at(d, at as usize + 4) as u64;
    let n: u64 = half_at(d, at as usize + 6) as u64;
    if first + 8 * n > len {
        return false;
    }
    let mut j: u64 = 1;
    while j < n
        invariant
            1 <= j,
            j <= n || n == 0,
            forall|i: int|
                1 <= i < j ==> i < n ==> whole(d@, first + 8 * (i - 1)) <= #[trigger] whole(d@, first + 8 * i),
        decreases n - j,
    {
        let a: u32 = whole_at(d, (first + 8 * (j - 1)) as usize);
        let b: u32 = whole_at(d, (first + 8 * j) as usize);
        if a > b {
            assert(whole(d@, first + 8 * j) == b);
            return false;
        }
        j = j + 1;
    }
    true
}

#[verifier::loop_isolation(false)]
fn is_compressed_kept(d: &[u8], at: u64, addr: u32, shared: u32) -> (r: bool)
    requires
        at <= u32::MAX,
    ensures
        r == compressed_kept(d@, at as int, addr as int, shared as int),
{
    let len: u64 = d.len() as u64;
    if at + 12 > len {
        return false;
    }
    let first: u64 = at + half_at(d, at as usize + 4) as u64;
    let n: u64 = half_at(d, at as usize + 6) as u64;
    let opcodes: u64 = shared as u64 + half_at(d, at as usize + 10) as u64;
    if first + 4 * n > len {
        return false;
    }
    let mut j: u64 = 0;
    while j < n
        invariant
            j <= n,
            forall|i: int|
                0 <= i < j ==> packed_kept(#[trigger] whole(d@, first + 4 * i), addr as int, opcodes as int),
            forall|i: int|
                1 <= i < j ==> whole(d@, first + 4 * (i - 1)) % 0x100_0000 <= (#[trigger] whole(d@, first + 4 * i))
                    % 0x100_0000,
        decreases n - j,
    {
        let e: u32 = whole_at(d, (first + 4 * j) as usize);
        assert(whole(d@, first + 4 * j) == e);
        if addr as u64 + (e % 0x100_0000) as u64 > 0xffff_ffff || (e / 0x100_0000) as u64 >= opcodes {
            assert(!packed_kept(whole(d@, first + 4 * j), addr as int, opcodes as int));
            return false;
        }
        if j > 0 {
            let before: u32 = whole_at(d, (first + 4 * (j - 1)) as usize);
            if before % 0x100_0000 > e % 0x100_0000 {
                return false;
            }
        }
        j = j + 1;
    }
    true
}

fn is_page_kept(d: &[u8], at: u64, addr: u32, shared: u32) -> (r: bool)
    requires
        at <= u32::MAX,
    ensures
        r == page_kept(d@, at as int, addr as int, shared as int),
{
    if at + 4 > d.len() as u64 {
        return false;
    }
    let kind: u32 = whole_at(d, at as usize);
    if kind == REGULAR {
        is_regular_kept(d, at)
    } else if kind == COMPRESSED {
        is_compressed_kept(d, at, addr, shared)
    } else {
        true
    }
}

/// Whether whatever address is looked up in a table, the search ends well.
#[verifier::loop_isolation(false)]
pub fn is_kept(d: &[u8]) -> (r: bool)
    ensures
        r == kept(d@),
{
    let len: u64 = d.len() as u64;
    if len < 28 {
        return false;
    }
    let first: u64 = whole_at(d, 20) as u64;
    let n: u64 = whole_at(d, 24) as u64;
    let shared: u32 = whole_at(d, 8);
    if first + 12 * n > len {
        return false;
    }
    let mut k: u64 = 0;
    while k < n
        invariant
            k <= n,
            forall|i: int|
                0 <= i < k ==> page_kept(
                    d@,
                    whole(d@, first + 12 * i + 4),
                    #[trigger] whole(d@, first + 12 * i),
                    shared as int,
                ),
            forall|i: int| 1 <= i < k ==> whole(d@, first + 12 * (i - 1)) <= #[trigger] whole(d@, first + 12 * i),
        decreases n - k,
    {
        let addr: u32 = whole_at(d, (first + 12 * k) as usize);
        let at: u32 = whole_at(d, (first + 12 * k + 4) as usize);
        assert(whole(d@, first + 12 * k) == addr);
        if !is_page_kept(d, at as u64, addr, shared) {
            return false;
        }
        if k > 0 {
            let before: u32 = whole_at(d, (first + 12 * (k - 1)) as usize);
            if before > addr {
                return false;
            }
        }
        k = k + 1;
    }
    true
}

} // verus!
