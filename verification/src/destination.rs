//! Where a build goes: into memory, or to a file of the caller's choice.

use crate::bytes::bytes_eq;
use vstd::prelude::*;

verus! {

/// Where the bytes of a build go.
#[derive(Debug, Clone, Copy, PartialEq, Eq, Structural)]
pub enum Destination {
    /// Into an owned buffer that is handed back.
    Memory,
    /// To the file at the path given, which is created or truncated.
    File,
}

/// The path that stands for memory: `:memory:`.
pub open spec fn memory_path() -> Seq<u8> {
    seq![0x3au8, 0x6du8, 0x65u8, 0x6du8, 0x6fu8, 0x72u8, 0x79u8, 0x3au8]
}

/// The destination that a path names: memory for the path `:memory:`, a
/// file for any other.
pub fn destination(path: &[u8]) -> (r: Destination)
    ensures
        r == if path@ == memory_path() {
            Destination::Memory
        } else {
            Destination::File
        },
{
    let memory: Vec<u8> = vec![0x3au8, 0x6du8, 0x65u8, 0x6du8, 0x6fu8, 0x72u8, 0x79u8, 0x3au8];
    assert(memory@ =~= memory_path());
    if bytes_eq(path, memory.as_slice()) {
        Destination::Memory
    } else {
        Destination::File
    }
}

} // verus!
