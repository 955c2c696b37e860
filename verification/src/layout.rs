//! What this crate reads itself of the bytes of a container: the format
//! version at the front and the two counts at the end. The transducer
//! library takes the counts for sizes of this machine, so they must fit one.

use crate::encoding::{be_value, lemma_be_value_bound, lemma_pow256_values};
use vstd::prelude::*;

verus! {

/// The least length of the bytes of a container: that of a container of
/// the empty key alone.
pub const MIN_LEN: usize = 36;

/// The newest format version.
pub const VERSION: u64 = 3;

/// The last format version without a checksum of four bytes at the end.
pub const LAST_WITHOUT_CHECKSUM: u64 = 2;

/// The number that the eight bytes of `data` from `at` on spell, least
/// significant byte first.
pub open spec fn le_u64(data: Seq<u8>, at: int) -> nat {
    be_value(data.subrange(at, at + 8).reverse())
}

/// Where the counts end: at the end of the bytes, or before the checksum.
pub open spec fn counts_end(data: Seq<u8>) -> int {
    if le_u64(data, 0) <= LAST_WITHOUT_CHECKSUM {
        data.len() as int
    } else {
        data.len() - 4
    }
}

/// The counts of the container fit a size of this machine: the address of
/// its root, in the last eight bytes before `counts_end`, and the number of
/// its keys, in the eight bytes before those. Bytes that are too short or
/// of no known format version hold no counts.
pub open spec fn counts_fit(data: Seq<u8>) -> bool {
    data.len() >= MIN_LEN && 1 <= le_u64(data, 0) <= VERSION ==> le_u64(
        data,
        counts_end(data) - 8,
    ) <= usize::MAX && le_u64(data, counts_end(data) - 16) <= usize::MAX
}

/// Reads eight bytes as a number, least significant byte first.
pub fn read_u64_le(data: &[u8], at: usize) -> (r: u64)
    requires
        at + 8 <= data@.len(),
    ensures
        r == le_u64(data@, at as int),
{
    let ghost digits = data@.subrange(at as int, at + 8).reverse();
    let mut acc: u64 = 0;
    let mut j: usize = 0;
    assert(data@.len() == data.len());
    while j < 8
        invariant
            j <= 8,
            at + 8 <= data@.len() <= usize::MAX,
            digits == data@.subrange(at as int, at + 8).reverse(),
            acc == be_value(digits.take(j as int)),
        decreases 8 - j,
    {
        proof {
            let next = digits.take(j + 1);
            assert(next.drop_last() =~= digits.take(j as int));
            assert(next.last() == data@[at + 7 - j]);
            lemma_be_value_bound(next);
            lemma_pow256_values((j + 1) as nat);
        }
        acc = acc * 256 + data[at + 7 - j] as u64;
        j += 1;
    }
    assert(digits.take(8) =~= digits);
    acc
}

/// Whether the counts of the container fit a size of this machine.
pub fn check_counts(data: &[u8]) -> (r: bool)
    ensures
        r == counts_fit(data@),
{
    if data.len() < MIN_LEN {
        return true;
    }
    let version = read_u64_le(data, 0);
    if version == 0 || version > VERSION {
        return true;
    }
    let end = if version <= LAST_WITHOUT_CHECKSUM {
        data.len()
    } else {
        data.len() - 4
    };
    let root = read_u64_le(data, end - 8);
    let len = read_u64_le(data, end - 16);
    root <= usize::MAX as u64 && len <= usize::MAX as u64
}

} // verus!
