//! The perf jitdump format, by which profilers learn of compiled code: a global
//! header, and a record for each function with its address, name and code.
use crate::arith::le_bytes;
use crate::text::bytes_of;
use vstd::prelude::*;
use vstd::string::*;
use vstd::utf8::*;

verus! {

/// "JiTD".
pub const JITDUMP_MAGIC: u32 = 0x4A69_5444;

/// The kind of record that loads code.
pub const JIT_CODE_LOAD: u32 = 0;

/// `e_machine` of x86-64.
pub const EM_X86_64: u32 = 62;

/// `e_machine` of AArch64.
pub const EM_AARCH64: u32 = 183;

/// How many bytes the global header takes.
pub const HEADER_SIZE: u32 = 40;

/// How many bytes of a record come before the function's name.
pub const RECORD_SIZE: u64 = 56;

/// The global header: magic, version, its own size, machine, padding, process,
/// time stamp and flags.
pub open spec fn header_bytes(machine: u32, pid: u32) -> Seq<u8> {
    crate::arith::le(JITDUMP_MAGIC as nat, 4) + crate::arith::le(1, 4) + crate::arith::le(
        HEADER_SIZE as nat,
        4,
    ) + crate::arith::le(machine as nat, 4) + crate::arith::le(0, 4) + crate::arith::le(
        pid as nat,
        4,
    ) + crate::arith::le(0, 8) + crate::arith::le(0, 8)
}

/// How long the record of a function is.
pub open spec fn record_len(name: Seq<u8>, code: Seq<u8>) -> nat {
    RECORD_SIZE as nat + name.len() + 1 + code.len()
}

/// The record of a function: kind, its own length, time stamp, process, thread,
/// address (twice), size and number of the code; then the name, ended by NUL,
/// and the code.
pub open spec fn record_bytes(
    time: u64,
    pid: u32,
    addr: u64,
    index: u64,
    name: Seq<u8>,
    code: Seq<u8>,
) -> Seq<u8> {
    crate::arith::le(JIT_CODE_LOAD as nat, 4) + crate::arith::le(record_len(name, code), 4)
        + crate::arith::le(time as nat, 8) + crate::arith::le(pid as nat, 4) + crate::arith::le(
        0,
        4,
    ) + crate::arith::le(addr as nat, 8) + crate::arith::le(addr as nat, 8) + crate::arith::le(
        code.len(),
        8,
    ) + crate::arith::le(index as nat, 8) + name + seq![0u8] + code
}

fn put(out: &mut Vec<u8>, x: u128, n: u8)
    ensures
        final(out)@ == old(out)@ + crate::arith::le(x as nat, n as nat),
{
    let mut b: Vec<u8> = le_bytes(x, n);
    out.append(&mut b);
}

fn put_all(out: &mut Vec<u8>, b: &[u8])
    ensures
        final(out)@ == old(out)@ + b@,
{
    let mut k: usize = 0;
    assert(out@ =~= old(out)@ + b@.take(0));
    while k < b.len()
        invariant
            k <= b@.len(),
            out@ == old(out)@ + b@.take(k as int),
        decreases b@.len() - k,
    {
        out.push(b[k]);
        assert(out@ =~= old(out)@ + b@.take(k + 1));
        k = k + 1;
    }
    assert(b@.take(k as int) =~= b@);
}

/// The global header of a dump.
pub fn header(machine: u32, pid: u32) -> (r: Vec<u8>)
    ensures
        r@ == header_bytes(machine, pid),
{
    let mut h: Vec<u8> = Vec::new();
    put(&mut h, JITDUMP_MAGIC as u128, 4);
    put(&mut h, 1, 4);
    put(&mut h, HEADER_SIZE as u128, 4);
    put(&mut h, machine as u128, 4);
    put(&mut h, 0, 4);
    put(&mut h, pid as u128, 4);
    put(&mut h, 0, 8);
    put(&mut h, 0, 8);
    assert(h@ =~= header_bytes(machine, pid));
    h
}

/// The record of a function.
pub fn record(time: u64, pid: u32, addr: u64, index: u64, name: &str, code: &[u8]) -> (r: Vec<u8>)
    ensures
        r@ == record_bytes(time, pid, addr, index, encode_utf8(name@), code@),
{
    let name_bytes: Vec<u8> = bytes_of(name);
    let total: u128 = RECORD_SIZE as u128 + name_bytes.len() as u128 + 1 + code.len() as u128;
    let mut rec: Vec<u8> = Vec::new();
    put(&mut rec, JIT_CODE_LOAD as u128, 4);
    put(&mut rec, total, 4);
    put(&mut rec, time as u128, 8);
    put(&mut rec, pid as u128, 4);
    put(&mut rec, 0, 4);
    put(&mut rec, addr as u128, 8);
    put(&mut rec, addr as u128, 8);
    put(&mut rec, code.len() as u128, 8);
    put(&mut rec, index as u128, 8);
    put_all(&mut rec, name_bytes.as_slice());
    rec.push(0);
    put_all(&mut rec, code);
    assert(rec@ =~= record_bytes(time, pid, addr, index, encode_utf8(name@), code@));
    rec
}

/// The header is as long as it says, and so is every record.
pub proof fn law_lengths_are_told(
    machine: u32,
    pid: u32,
    time: u64,
    addr: u64,
    index: u64,
    name: Seq<u8>,
    code: Seq<u8>,
)
    ensures
        header_bytes(machine, pid).len() == HEADER_SIZE,
        record_bytes(time, pid, addr, index, name, code).len() == record_len(name, code),
{
    crate::arith::lemma_le_len(JITDUMP_MAGIC as nat, 4);
    crate::arith::lemma_le_len(1, 4);
    crate::arith::lemma_le_len(HEADER_SIZE as nat, 4);
    crate::arith::lemma_le_len(machine as nat, 4);
    crate::arith::lemma_le_len(0, 4);
    crate::arith::lemma_le_len(pid as nat, 4);
    crate::arith::lemma_le_len(0, 8);
    crate::arith::lemma_le_len(JIT_CODE_LOAD as nat, 4);
    crate::arith::lemma_le_len(record_len(name, code), 4);
    crate::arith::lemma_le_len(time as nat, 8);
    crate::arith::lemma_le_len(addr as nat, 8);
    crate::arith::lemma_le_len(code.len(), 8);
    crate::arith::lemma_le_len(index as nat, 8);
}

/// What stands from one offset to before another.
pub open spec fn field(b: Seq<u8>, from: int, to: int) -> nat {
    crate::arith::from_le(b.subrange(from, to))
}

/// Read back at the offsets that profilers read at, a header tells what it was made of.
pub proof fn law_header_reads_back(machine: u32, pid: u32)
    ensures
        ({
            let b = header_bytes(machine, pid);
            &&& b.len() == 40
            &&& field(b, 0, 4) == 0x4a69_5444
            &&& field(b, 4, 8) == 1
            &&& field(b, 8, 12) == 40
            &&& field(b, 12, 16) == machine
            &&& field(b, 16, 20) == 0
            &&& field(b, 20, 24) == pid
            &&& field(b, 24, 32) == 0
            &&& field(b, 32, 40) == 0
        }),
{
    let b = header_bytes(machine, pid);
    law_lengths_are_told(machine, pid, 0, 0, 0, Seq::empty(), Seq::empty());
    lemma_four(JITDUMP_MAGIC);
    lemma_four(1);
    lemma_four(HEADER_SIZE);
    lemma_four(machine);
    lemma_four(0);
    lemma_four(pid);
    lemma_eight(0);
    assert(b.subrange(0, 4) =~= crate::arith::le(JITDUMP_MAGIC as nat, 4));
    assert(b.subrange(4, 8) =~= crate::arith::le(1, 4));
    assert(b.subrange(8, 12) =~= crate::arith::le(HEADER_SIZE as nat, 4));
    assert(b.subrange(12, 16) =~= crate::arith::le(machine as nat, 4));
    assert(b.subrange(16, 20) =~= crate::arith::le(0, 4));
    assert(b.subrange(20, 24) =~= crate::arith::le(pid as nat, 4));
    assert(b.subrange(24, 32) =~= crate::arith::le(0, 8));
    assert(b.subrange(32, 40) =~= crate::arith::le(0, 8));
}

proof fn lemma_four(x: u32)
    ensures
        crate::arith::le(x as nat, 4).len() == 4,
        crate::arith::from_le(crate::arith::le(x as nat, 4)) == x,
{
    crate::arith::lemma_le_len(x as nat, 4);
    reveal_with_fuel(crate::arith::pow256, 5);
    crate::arith::law_bytes_read_back(x as nat, 4);
}

proof fn lemma_eight(x: u64)
    ensures
        crate::arith::le(x as nat, 8).len() == 8,
        crate::arith::from_le(crate::arith::le(x as nat, 8)) == x,
{
    crate::arith::lemma_le_len(x as nat, 8);
    reveal_with_fuel(crate::arith::pow256, 9);
    crate::arith::law_bytes_read_back(x as nat, 8);
}

/// Read back at the offsets that profilers read at, a record tells what it was made of:
/// that it loads code, how long it is, when and by which process, where the code is, how
/// long, under which number; then its name, ended by NUL, and the code itself.
pub proof fn law_record_reads_back(time: u64, pid: u32, addr: u64, index: u64, name: Seq<u8>, code: Seq<u8>)
    requires
        57 + name.len() + code.len() <= u32::MAX,
    ensures
        ({
            let b = record_bytes(time, pid, addr, index, name, code);
            let n = 56 + name.len() as int;
            &&& field(b, 0, 4) == 0
            &&& field(b, 4, 8) == b.len()
            &&& field(b, 8, 16) == time
            &&& field(b, 16, 20) == pid
            &&& field(b, 20, 24) == 0
            &&& field(b, 24, 32) == addr
            &&& field(b, 32, 40) == addr
            &&& field(b, 40, 48) == code.len()
            &&& field(b, 48, 56) == index
            &&& b.subrange(56, n) == name
            &&& b[n] == 0
            &&& b.subrange(n + 1, b.len() as int) == code
        }),
{
    let b = record_bytes(time, pid, addr, index, name, code);
    let n = 56 + name.len() as int;
    law_lengths_are_told(0, pid, time, addr, index, name, code);
    lemma_four(JIT_CODE_LOAD);
    lemma_four(record_len(name, code) as u32);
    lemma_eight(time);
    lemma_four(pid);
    lemma_four(0);
    lemma_eight(addr);
    lemma_eight(code.len() as u64);
    lemma_eight(index);
    assert(b.subrange(0, 4) =~= crate::arith::le(JIT_CODE_LOAD as nat, 4));
    assert(b.subrange(4, 8) =~= crate::arith::le(record_len(name, code), 4));
    assert(b.subrange(8, 16) =~= crate::arith::le(time as nat, 8));
    assert(b.subrange(16, 20) =~= crate::arith::le(pid as nat, 4));
    assert(b.subrange(20, 24) =~= crate::arith::le(0, 4));
    assert(b.subrange(24, 32) =~= crate::arith::le(addr as nat, 8));
    assert(b.subrange(32, 40) =~= crate::arith::le(addr as nat, 8));
    assert(b.subrange(40, 48) =~= crate::arith::le(code.len(), 8));
    assert(b.subrange(48, 56) =~= crate::arith::le(index as nat, 8));
    assert(b.subrange(56, n) =~= name);
    assert(b.subrange(n + 1, b.len() as int) =~= code);
}

} // verus!
