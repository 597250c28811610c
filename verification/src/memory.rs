//! The memory oracle: advisory admission control against the system's
//! currently available memory.

use vstd::prelude::*;
use sysinfo::System;
use crate::error::Error;

verus! {

/// One mebibyte.
pub const MIB: usize = 1048576;

/// The capacity used for the I/O buffers.
pub const IO_BUF_SIZE: usize = 16 * MIB;

/// The reserve: the minimum amount of memory that must stay available after
/// any planned allocation, so that the system is not starved.
pub const MIN_AVL_MEM: usize = 64 * MIB;

/// The admission policy: taking `take` bytes out of `avl` available bytes
/// must leave at least the reserve.  A `take` larger than `avl` is never
/// admitted.
pub open spec fn mem_fits(avl: int, take: int) -> bool {
    take <= avl && avl - take >= MIN_AVL_MEM as int
}

/// Relies on `sysinfo::System::new`, `System::refresh_memory` and
/// `System::available_memory` to read how many bytes of memory the
/// operating system reports as available.  The result depends on the
/// machine's state at the moment of the call, so nothing is promised of it.
#[verifier::external_body]
pub(crate) fn query_available_memory() -> usize {
    let mut sys = System::new();
    sys.refresh_memory();
    sys.available_memory() as usize
}

/// True iff taking `take_mem` bytes out of `avl_mem` available bytes leaves
/// at least the reserve.
pub fn is_memory_enough_with(avl_mem: usize, take_mem: usize) -> (r: bool)
    ensures
        r == mem_fits(avl_mem as int, take_mem as int),
{
    take_mem <= avl_mem && avl_mem - take_mem >= MIN_AVL_MEM
}

/// Asks the oracle whether at least the reserve is currently available.
/// The result depends on the machine's state at the moment of the call.
pub fn enough_memory_left() -> bool {
    let avl_mem = query_available_memory();
    is_memory_enough_with(avl_mem, 0)
}

/// The size for the I/O buffers, granted only while at least the reserve is
/// available.
pub fn buffer_size(avl_mem: usize) -> (r: Result<usize, Error>)
    ensures
        r == if avl_mem >= MIN_AVL_MEM {
            Ok::<usize, Error>(IO_BUF_SIZE)
        } else {
            Err::<usize, Error>(Error::LowMemory)
        },
{
    if avl_mem < MIN_AVL_MEM {
        Err(Error::LowMemory)
    } else {
        Ok(IO_BUF_SIZE)
    }
}

/// Admission is monotone in the available memory: a take that is refused at
/// some level of available memory is also refused at every lower level.
pub proof fn lemma_admission_monotonic(avl1: int, avl2: int, take: int)
    requires
        !mem_fits(avl1, take),
        avl2 <= avl1,
    ensures
        !mem_fits(avl2, take),
{
}

} // verus!
