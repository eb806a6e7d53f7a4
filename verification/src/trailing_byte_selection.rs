//! Trailing-byte selection.
//!
//! The variable-length code emits "trail values", digits in base 243. This
//! module maps that linear range onto the 243 byte values that are safe in
//! trail position, skipping the thirteen bytes (NUL, the C0 controls
//! 0x07..=0x0F, SUB, ESC and SP) that text-processing tools give a meaning
//! to. Those thirteen bytes only ever occur in an encoded stream when the
//! code point of the same number occurred in the text.

use crate::iter::DecodeError;
use vstd::prelude::*;

verus! {

/// Number of distinct trail values: 256 bytes minus the 13 excluded ones.
pub const N_TRAIL_VALUES: i32 = 243;

/// The thirteen bytes that never stand in trail position.
pub open spec fn is_excluded_byte(b: int) -> bool {
    b == 0x00 || (0x07 <= b <= 0x0F) || b == 0x1A || b == 0x1B || b == 0x20
}

/// The byte that carries trail value `t`, for `0 <= t < 243`.
pub open spec fn trail_byte(t: int) -> int {
    if t <= 0x05 {
        t + 1
    } else if t <= 0x0F {
        t + 10
    } else if t <= 0x13 {
        t + 12
    } else {
        t + 13
    }
}

/// The trail value that byte `b` carries, for a byte that is not excluded.
pub open spec fn trail_index(b: int) -> int {
    if b <= 0x06 {
        b - 1
    } else if b <= 0x19 {
        b - 10
    } else if b <= 0x1F {
        b - 12
    } else {
        b - 13
    }
}

/// What reading byte `b` in trail position gives: its trail value, or the
/// error that names the offending byte.
pub open spec fn trail_of_byte(b: u8) -> Result<u8, DecodeError> {
    if is_excluded_byte(b as int) {
        Err(DecodeError::TrailByteOutOfRange(b))
    } else {
        Ok(trail_index(b as int) as u8)
    }
}

/// `trail_byte` lands in the byte range and never on an excluded byte.
pub proof fn lemma_trail_byte_range(t: int)
    requires
        0 <= t < 243,
    ensures
        1 <= trail_byte(t) <= 255,
        !is_excluded_byte(trail_byte(t)),
{
}

/// `trail_index` undoes `trail_byte`.
pub proof fn lemma_trail_index_of_trail_byte(t: int)
    requires
        0 <= t < 243,
    ensures
        trail_index(trail_byte(t)) == t,
{
}

/// `trail_byte` undoes `trail_index` on every byte that is not excluded.
pub proof fn lemma_trail_byte_of_trail_index(b: int)
    requires
        0 <= b <= 255,
        !is_excluded_byte(b),
    ensures
        0 <= trail_index(b) < 243,
        trail_byte(trail_index(b)) == b,
{
}

/// The mapping is strictly increasing, so comparing trail bytes compares
/// trail values.
pub proof fn lemma_trail_byte_increasing(s: int, t: int)
    requires
        0 <= s < t < 243,
    ensures
        trail_byte(s) < trail_byte(t),
{
}

/// Maps a trail value to its byte, stepping over the excluded bytes.
#[inline]
pub fn trail_to_byte(b: u8) -> (v: u8)
    requires
        b < 243,
    ensures
        v == trail_byte(b as int),
        !is_excluded_byte(v as int),
{
    if b <= 0x05 {
        b + 1
    } else if b <= 0x0F {
        b + 1 + 9
    } else if b <= 0x13 {
        b + 1 + 9 + 2
    } else {
        b + 1 + 9 + 2 + 1
    }
}

/// Maps a byte in trail position back to its trail value; an excluded byte
/// is an error.
#[inline]
pub fn byte_to_trail(b: u8) -> (r: Result<u8, DecodeError>)
    ensures
        r == trail_of_byte(b),
        r is Ok ==> r.unwrap() < 243,
{
    if 0x01 <= b && b <= 0x06 {
        Ok(b - 1)
    } else if 0x10 <= b && b <= 0x19 {
        Ok((b - 1) - 9)
    } else if 0x1C <= b && b <= 0x1F {
        Ok(((b - 1) - 9) - 2)
    } else if 0x21 <= b {
        Ok((((b - 1) - 9) - 2) - 1)
    } else {
        Err(DecodeError::TrailByteOutOfRange(b))
    }
}

} // verus!
