//! A self-delimiting big-endian encoding of unsigned integers in one to
//! eight bytes. The low three bits of the last byte hold the number of bytes
//! less one, so an integer can be read off the end of a longer byte string.

use crate::error::Failure;
use vstd::prelude::*;

verus! {

/// The largest integer that has an encoding: 2^61 - 1.
pub const MAX_INT: u64 = 0x1FFF_FFFF_FFFF_FFFF;

/// 256 to the power `n`.
pub open spec fn pow256(n: nat) -> nat
    decreases n,
{
    if n == 0 {
        1
    } else {
        256 * pow256((n - 1) as nat)
    }
}

/// The number that the bytes of `s` spell, most significant byte first.
pub open spec fn be_value(s: Seq<u8>) -> nat
    decreases s.len(),
{
    if s.len() == 0 {
        0
    } else {
        be_value(s.drop_last()) * 256 + s.last() as nat
    }
}

/// The low `n` base-256 digits of `v`, most significant first.
pub open spec fn be_bytes(v: nat, n: nat) -> Seq<u8>
    decreases n,
{
    if n == 0 {
        Seq::empty()
    } else {
        be_bytes(v / 256, (n - 1) as nat).push((v % 256) as u8)
    }
}

/// The number of bytes in the encoding of `i`: the least in which `i`
/// shifted left by three bits fits.
pub open spec fn encoded_len(i: u64) -> nat {
    if i < 0x20 {
        1
    } else if i < 0x2000 {
        2
    } else if i < 0x20_0000 {
        3
    } else if i < 0x2000_0000 {
        4
    } else if i < 0x20_0000_0000 {
        5
    } else if i < 0x2000_0000_0000 {
        6
    } else if i < 0x20_0000_0000_0000 {
        7
    } else {
        8
    }
}

/// The encoding of `i`, for `i` up to `MAX_INT`: the bytes of `i` shifted
/// left by three bits, with the length less one in the three low bits.
pub open spec fn spec_encode(i: u64) -> Seq<u8> {
    be_bytes((i * 8 + encoded_len(i) - 1) as nat, encoded_len(i))
}

/// The number of bytes that the last byte of `data` announces.
pub open spec fn announced_len(data: Seq<u8>) -> nat
    recommends
        data.len() > 0,
{
    (data.last() % 8 + 1) as nat
}

/// What decoding reads off the end of `data`: the bytes before the integer,
/// and the integer. `None` where `data` is empty or too short.
pub open spec fn spec_decode(data: Seq<u8>) -> Option<(Seq<u8>, u64)> {
    if data.len() == 0 || announced_len(data) > data.len() {
        None
    } else {
        let n = data.len() - announced_len(data);
        Some((data.take(n), (be_value(data.skip(n)) / 8) as u64))
    }
}

/// The powers of 256 up to the eighth.
pub proof fn lemma_pow256_values(n: nat)
    requires
        n <= 8,
    ensures
        n == 0 ==> pow256(n) == 0x1,
        n == 1 ==> pow256(n) == 0x100,
        n == 2 ==> pow256(n) == 0x1_0000,
        n == 3 ==> pow256(n) == 0x100_0000,
        n == 4 ==> pow256(n) == 0x1_0000_0000,
        n == 5 ==> pow256(n) == 0x100_0000_0000,
        n == 6 ==> pow256(n) == 0x1_0000_0000_0000,
        n == 7 ==> pow256(n) == 0x100_0000_0000_0000,
        n == 8 ==> pow256(n) == 0x1_0000_0000_0000_0000,
{
    reveal_with_fuel(pow256, 10);
}

/// Bytes spell a number below 256 to the power of their count.
pub proof fn lemma_be_value_bound(s: Seq<u8>)
    ensures
        be_value(s) < pow256(s.len()),
    decreases s.len(),
{
    if s.len() > 0 {
        lemma_be_value_bound(s.drop_last());
    }
}

proof fn lemma_be_bytes_len(v: nat, n: nat)
    ensures
        be_bytes(v, n).len() == n,
    decreases n,
{
    if n > 0 {
        lemma_be_bytes_len(v / 256, (n - 1) as nat);
    }
}

proof fn lemma_be_value_of_be_bytes(v: nat, n: nat)
    requires
        v < pow256(n),
    ensures
        be_value(be_bytes(v, n)) == v,
    decreases n,
{
    if n > 0 {
        lemma_be_value_of_be_bytes(v / 256, (n - 1) as nat);
        let s = be_bytes(v, n);
        assert(s.drop_last() =~= be_bytes(v / 256, (n - 1) as nat));
    }
}

/// The number of bytes in the encoding of `i`.
fn encoded_len_of(i: u64) -> (n: usize)
    ensures
        n == encoded_len(i),
{
    if i < 0x20 {
        1
    } else if i < 0x2000 {
        2
    } else if i < 0x20_0000 {
        3
    } else if i < 0x2000_0000 {
        4
    } else if i < 0x20_0000_0000 {
        5
    } else if i < 0x2000_0000_0000 {
        6
    } else if i < 0x20_0000_0000_0000 {
        7
    } else {
        8
    }
}

/// Encodes `i` in the fewest bytes that hold it. Fails with `ValueTooLarge`
/// on an integer above `MAX_INT`.
pub fn encode_int(i: u64) -> (r: Result<Vec<u8>, Failure>)
    ensures
        match r {
            Ok(v) => i <= MAX_INT && v@ == spec_encode(i),
            Err(e) => i > MAX_INT && e == Failure::ValueTooLarge,
        },
{
    if i > MAX_INT {
        return Err(Failure::ValueTooLarge);
    }
    let num_bytes = encoded_len_of(i);
    // three low bits for the length
    let enc: u64 = i * 8 + (num_bytes as u64 - 1);
    let mut rest: u64 = enc;
    let mut out: Vec<u8> = Vec::with_capacity(num_bytes);
    while out.len() < num_bytes
        invariant
            out.len() <= num_bytes <= 8,
            be_bytes(enc as nat, num_bytes as nat) == be_bytes(
                rest as nat,
                (num_bytes - out.len()) as nat,
            ) + out@,
        decreases num_bytes - out.len(),
    {
        let ghost before = out@;
        let ghost m = (num_bytes - out.len()) as nat;
        out.insert(0, (rest % 256) as u8);
        proof {
            assert(be_bytes(rest as nat, m) + before =~= be_bytes(
                (rest / 256) as nat,
                (m - 1) as nat,
            ) + out@);
        }
        rest = rest / 256;
    }
    Ok(out)
}

/// Reads an integer off the end of `data`, and returns the bytes before it
/// and the integer. Fails with `Empty` on no bytes, and with `Incomplete`
/// where the last byte announces more bytes than there are.
pub fn decode_int(data: &[u8]) -> (r: Result<(Vec<u8>, u64), Failure>)
    ensures
        match r {
            Ok((rem, i)) => spec_decode(data@) == Some((rem@, i)),
            Err(e) => spec_decode(data@) is None && e == if data@.len() == 0 {
                Failure::Empty
            } else {
                Failure::Incomplete
            },
        },
{
    if data.len() == 0 {
        return Err(Failure::Empty);
    }
    let last: u8 = data[data.len() - 1];
    let num_bytes: usize = (last % 8) as usize + 1;
    if num_bytes > data.len() {
        return Err(Failure::Incomplete);
    }
    let n: usize = data.len() - num_bytes;
    let ghost tail = data@.skip(n as int);
    let mut i: u64 = 0;
    let mut j: usize = 0;
    while j < num_bytes
        invariant
            j <= num_bytes <= 8,
            n + num_bytes == data@.len(),
            n + num_bytes <= usize::MAX,
            tail == data@.skip(n as int),
            i == be_value(tail.take(j as int)),
        decreases num_bytes - j,
    {
        proof {
            let next = tail.take(j + 1);
            assert(next.drop_last() =~= tail.take(j as int));
            assert(next.last() == data@[n + j]);
            lemma_be_value_bound(next);
            lemma_pow256_values((j + 1) as nat);
        }
        i = i * 256 + data[n + j] as u64;
        j += 1;
    }
    // three bits were used to encode the length
    i = i / 8;
    let mut rem: Vec<u8> = Vec::with_capacity(n);
    let mut k: usize = 0;
    while k < n
        invariant
            k <= n <= data@.len(),
            rem@ == data@.take(k as int),
        decreases n - k,
    {
        rem.push(data[k]);
        proof {
            assert(data@.take(k + 1) =~= data@.take(k as int).push(data@[k as int]));
        }
        k += 1;
    }
    proof {
        assert(tail.take(num_bytes as int) =~= tail);
    }
    Ok((rem, i))
}

/// Decoding undoes encoding, whatever bytes come before the integer: for
/// every `i` up to `MAX_INT` and every byte string `s`, decoding `s`
/// followed by the encoding of `i` gives `s` and `i`.
pub proof fn lemma_decode_encode(s: Seq<u8>, i: u64)
    requires
        i <= MAX_INT,
    ensures
        spec_decode(s + spec_encode(i)) == Some((s, i)),
{
    let n = encoded_len(i);
    let v = (i * 8 + n - 1) as nat;
    let e = spec_encode(i);
    let data = s + e;
    lemma_be_bytes_len(v, n);
    lemma_pow256_values(n);
    lemma_be_value_of_be_bytes(v, n);
    assert(e.last() == (v % 256) as u8);
    assert(data.last() == e.last());
    assert(data.take(data.len() - n) =~= s);
    assert(data.skip(data.len() - n) =~= e);
}

/// The encoding of `i` is `encoded_len(i)` bytes long, between one and
/// eight.
pub proof fn lemma_encode_len(i: u64)
    ensures
        spec_encode(i).len() == encoded_len(i),
        1 <= encoded_len(i) <= 8,
{
    lemma_be_bytes_len((i * 8 + encoded_len(i) - 1) as nat, encoded_len(i));
}

} // verus!
