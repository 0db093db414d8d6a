//! Big-endian primitives over a byte cursor: each reader takes the remaining
//! input and hands back the value it read together with what is left.

use vstd::prelude::*;
use vstd::slice::slice_to_vec;

verus! {

/// The 16-bit big-endian integer stored at offset `i` of `s`.
pub open spec fn u16_at(s: Seq<u8>, i: int) -> int {
    s[i] as int * 0x100 + s[i + 1] as int
}

/// The 32-bit big-endian integer stored at offset `i` of `s`.
pub open spec fn u32_at(s: Seq<u8>, i: int) -> int {
    u16_at(s, i) * 0x1_0000 + u16_at(s, i + 2)
}

/// The 64-bit big-endian integer stored at offset `i` of `s`.
pub open spec fn u64_at(s: Seq<u8>, i: int) -> int {
    u32_at(s, i) * 0x1_0000_0000 + u32_at(s, i + 4)
}

/// The reason a primitive read fails: fewer bytes remain than it needs.
#[derive(Debug, Clone, Copy, PartialEq, Eq, Structural)]
pub enum DecodeError {
    InsufficientInput,
}

/// Reads one byte.
pub fn read_u8(input: &[u8]) -> (r: Result<(u8, &[u8]), DecodeError>)
    ensures
        match r {
            Ok((v, rest)) => input@.len() >= 1 && v == input@[0] && rest@ == input@.subrange(
                1,
                input@.len() as int,
            ),
            Err(_) => input@.len() < 1,
        },
{
    if input.len() < 1 {
        return Err(DecodeError::InsufficientInput);
    }
    Ok((input[0], &input[1..input.len()]))
}

/// Reads a 16-bit big-endian integer.
pub fn read_u16_be(input: &[u8]) -> (r: Result<(u16, &[u8]), DecodeError>)
    ensures
        match r {
            Ok((v, rest)) => input@.len() >= 2 && v == u16_at(input@, 0) && rest@
                == input@.subrange(2, input@.len() as int),
            Err(_) => input@.len() < 2,
        },
{
    if input.len() < 2 {
        return Err(DecodeError::InsufficientInput);
    }
    let v: u16 = input[0] as u16 * 0x100 + input[1] as u16;
    Ok((v, &input[2..input.len()]))
}

/// Reads a 64-bit big-endian integer.
pub fn read_u64_be(input: &[u8]) -> (r: Result<(u64, &[u8]), DecodeError>)
    ensures
        match r {
            Ok((v, rest)) => input@.len() >= 8 && v == u64_at(input@, 0) && rest@
                == input@.subrange(8, input@.len() as int),
            Err(_) => input@.len() < 8,
        },
{
    if input.len() < 8 {
        return Err(DecodeError::InsufficientInput);
    }
    let hi: u64 = (input[0] as u64 * 0x100 + input[1] as u64) * 0x1_0000 + (input[2] as u64
        * 0x100 + input[3] as u64);
    let lo: u64 = (input[4] as u64 * 0x100 + input[5] as u64) * 0x1_0000 + (input[6] as u64
        * 0x100 + input[7] as u64);
    Ok((hi * 0x1_0000_0000 + lo, &input[8..input.len()]))
}

/// Reads the next `n` bytes as an owned sequence.
pub fn read_bytes(input: &[u8], n: usize) -> (r: Result<(Vec<u8>, &[u8]), DecodeError>)
    ensures
        match r {
            Ok((v, rest)) => input@.len() >= n && v@ == input@.subrange(0, n as int) && rest@
                == input@.subrange(n as int, input@.len() as int),
            Err(_) => input@.len() < n,
        },
{
    if input.len() < n {
        return Err(DecodeError::InsufficientInput);
    }
    let v = slice_to_vec(&input[0..n]);
    Ok((v, &input[n..input.len()]))
}

} // verus!
