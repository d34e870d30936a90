//! Little-endian numbers inside byte sequences.

use vstd::prelude::*;

verus! {

/// The 16-bit number at `at`.
pub open spec fn le16(s: Seq<u8>, at: int) -> int {
    s[at] + 0x100 * s[at + 1]
}

/// The 32-bit number at `at`.
pub open spec fn le32(s: Seq<u8>, at: int) -> int {
    le16(s, at) + 0x1_0000 * le16(s, at + 2)
}

/// The 64-bit number at `at`.
pub open spec fn le64(s: Seq<u8>, at: int) -> int {
    le32(s, at) + 0x1_0000_0000 * le32(s, at + 4)
}

/// The 32-bit number at `at`, in two's complement.
pub open spec fn le32_signed(s: Seq<u8>, at: int) -> int {
    if le32(s, at) >= 0x8000_0000 {
        le32(s, at) - 0x1_0000_0000
    } else {
        le32(s, at)
    }
}

/// Each byte counts 256 times what the one before it counts, and the top bit of
/// a signed number counts against it.
pub proof fn lemma_lowest_byte_first(s: Seq<u8>, at: int)
    ensures
        le16(s, at) == s[at] + 256 * s[at + 1],
        le32(s, at) == s[at] + 256 * (s[at + 1] + 256 * (s[at + 2] + 256 * s[at + 3])),
        le64(s, at) == s[at] + 256 * (s[at + 1] + 256 * (s[at + 2] + 256 * (s[at + 3] + 256 * (s[at
            + 4] + 256 * (s[at + 5] + 256 * (s[at + 6] + 256 * s[at + 7])))))),
        le32_signed(s, at) == le32(s, at) - if s[at + 3] >= 128 {
            0x1_0000_0000int
        } else {
            0
        },
{
}

/// Reads the 16-bit number at `at`, if it lies inside `data`.
pub fn u16_at(data: &[u8], at: usize) -> (r: Option<u16>)
    ensures
        r is Some <==> at + 2 <= data@.len(),
        r matches Some(n) ==> n == le16(data@, at as int),
{
    if data.len() >= 2 && at <= data.len() - 2 {
        Some(data[at] as u16 + 0x100 * (data[at + 1] as u16))
    } else {
        None
    }
}

/// Reads the 32-bit number at `at`, if it lies inside `data`.
pub fn u32_at(data: &[u8], at: usize) -> (r: Option<u32>)
    ensures
        r is Some <==> at + 4 <= data@.len(),
        r matches Some(n) ==> n == le32(data@, at as int),
{
    if data.len() >= 4 && at <= data.len() - 4 {
        let low: u32 = data[at] as u32 + 0x100 * (data[at + 1] as u32);
        let high: u32 = data[at + 2] as u32 + 0x100 * (data[at + 3] as u32);
        Some(low + 0x1_0000 * high)
    } else {
        None
    }
}

/// Reads the 64-bit number at `at`, if it lies inside `data`.
pub fn u64_at(data: &[u8], at: usize) -> (r: Option<u64>)
    ensures
        r is Some <==> at + 8 <= data@.len(),
        r matches Some(n) ==> n == le64(data@, at as int),
{
    if data.len() >= 8 && at <= data.len() - 8 {
        match (u32_at(data, at), u32_at(data, at + 4)) {
            (Some(low), Some(high)) => Some(low as u64 + 0x1_0000_0000 * (high as u64)),
            _ => None,
        }
    } else {
        None
    }
}

/// Reads the signed 32-bit number at `at`, if it lies inside `data`.
pub fn i32_at(data: &[u8], at: usize) -> (r: Option<i32>)
    ensures
        r is Some <==> at + 4 <= data@.len(),
        r matches Some(n) ==> n == le32_signed(data@, at as int),
{
    match u32_at(data, at) {
        None => None,
        Some(n) => if n >= 0x8000_0000 {
            Some((n as i64 - 0x1_0000_0000) as i32)
        } else {
            Some(n as i32)
        },
    }
}

} // verus!
