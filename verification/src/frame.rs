//! What is known of a frame: the registers of the function that was called, and
//! what unwinding it gives of its caller.
use vstd::prelude::*;

verus! {

/// The registers of the function that was called.
#[derive(Clone, Copy, PartialEq, Eq, Structural, Debug)]
pub struct Raw {
    pub pc: u64,
    pub sp: u64,
    pub fp: u64,
}

/// What was recovered of the caller.
#[derive(Clone, Copy, PartialEq, Eq, Structural, Debug)]
pub struct Caller {
    /// The return address into the caller, as a link-time address.
    pub static_pc: u64,
    /// The caller's frame pointer.
    pub caller_fp: u64,
    /// The caller's stack pointer at the call site.
    pub caller_sp: u64,
}

/// The distance between link-time and run-time addresses: the load address of
/// the main program, which is the first of the loaded objects.
pub fn image_slide(objects: &Vec<u64>) -> (r: u64)
    ensures
        r == (if objects@.len() > 0 {
            objects@[0]
        } else {
            0
        }),
{
    if objects.len() > 0 {
        objects[0]
    } else {
        0
    }
}

/// The address of the return address in a frame with a frame record; nothing
/// where there is no such address.
pub fn return_slot(r: Raw) -> (slot: Option<u64>)
    ensures
        slot == (if r.fp + 8 <= u64::MAX {
            Some((r.fp + 8) as u64)
        } else {
            None
        }),
{
    r.fp.checked_add(8)
}

/// The caller's return address as a link-time address; nothing where it lies
/// below the image.
pub fn caller_pc(ret: u64, slide: u64) -> (r: Option<u64>)
    ensures
        r == (if ret >= slide {
            Some((ret - slide) as u64)
        } else {
            None
        }),
{
    ret.checked_sub(slide)
}

} // verus!
