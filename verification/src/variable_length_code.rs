//! The variable-length code.
//!
//! A signed delta between two code points becomes a chunk of one to four
//! bytes: a lead byte followed by up to three trail bytes. Two things hold
//! of the chunks. Their byte-wise lexicographic order is the numeric order
//! of the deltas, and small deltas get short chunks.
//!
//! Lead bytes run from 0x21 to 0xFE: bytes up to 0x20 stand for themselves
//! in the stream, and 0xFF is kept as a reset marker. The 222 lead bytes are
//! handed out from the middle, 0x90, outwards. The 128 bytes around the
//! middle are complete one-byte codes for the deltas -64..=63. On either
//! side follow 43 lead bytes of two-byte codes: with 243 trail values that
//! is 43 * 243 = 10449 deltas a side, enough to reach across the main block
//! of the unified CJK ideographs. Then come 3 lead bytes of three-byte codes
//! on either side, and a single lead byte of four-byte codes, which covers
//! every remaining distance between two code points.
//!
//! The trail bytes are the digits of the distance from the start of the
//! delta's window, in base 243, most significant first, each sent through
//! the trail-byte mapping. The most significant digit is added to the
//! window's lead byte.

use crate::iter::DecodeError;
use crate::iter::EncodedChunk;
use crate::lex_order::differ_at;
use crate::trailing_byte_selection::byte_to_trail;
use crate::trailing_byte_selection::is_excluded_byte;
use crate::trailing_byte_selection::trail_byte;
use crate::trailing_byte_selection::trail_index;
use crate::trailing_byte_selection::trail_to_byte;
use crate::trailing_byte_selection::N_TRAIL_VALUES;
use crate::util::lemma_quotient_fits_i32;
use crate::util::Euc;
use vstd::prelude::*;

verus! {

/// The lead byte 0xFF codes no delta: a producer may insert it to reset
/// the decoder's state.
pub const LEAD_BYTE_RESET: u8 = 0xff;

/// Bytes up to and including 0x20 (space) stand for themselves and are
/// handled before the variable-length code.
pub const LEAD_BYTE_ASCII_SP: u8 = 0x20;

/// The deltas that the code covers: every distance between a code point
/// above U+0020 and a state of the delta coder.
pub open spec fn delta_in_range(d: int) -> bool {
    -0x10FF9F <= d <= 0x10FFBF
}

/// `243^k` for the exponents that occur, `0 <= k <= 3`.
pub open spec fn pow243(k: int) -> int {
    if k <= 0 {
        1
    } else if k == 1 {
        243
    } else if k == 2 {
        59049
    } else {
        14348907
    }
}

/// Number of bytes in the chunk of delta `d`.
pub open spec fn code_len(d: int) -> int {
    if d < -0x2DD0C {
        4
    } else if d < -0x2911 {
        3
    } else if d < -0x40 {
        2
    } else if d <= 0x3F {
        1
    } else if d <= 0x2910 {
        2
    } else if d <= 0x2DD0B {
        3
    } else {
        4
    }
}

/// The delta from which the window of `d` is measured.
pub open spec fn code_offset(d: int) -> int {
    if d < -0x2DD0C {
        -0x2DD0C
    } else if d < -0x2911 {
        -0x2911
    } else if d < -0x40 {
        -0x40
    } else if d <= 0x3F {
        0
    } else if d <= 0x2910 {
        0x40
    } else if d <= 0x2DD0B {
        0x2911
    } else {
        0x2DD0C
    }
}

/// The lead byte to which the most significant digit of `d` is added.
pub open spec fn code_lead(d: int) -> int {
    if d < -0x2DD0C {
        0x22
    } else if d < -0x2911 {
        0x25
    } else if d < -0x40 {
        0x50
    } else if d <= 0x3F {
        0x90
    } else if d <= 0x2910 {
        0xD0
    } else if d <= 0x2DD0B {
        0xFB
    } else {
        0xFE
    }
}

/// Byte `i` of the chunk of delta `d`: the lead byte plus the leading digit
/// at `i == 0`, and the trail byte of digit `i` after it.
pub open spec fn code_byte(d: int, i: int) -> u8 {
    let n = code_len(d);
    let x = d - code_offset(d);
    if i == 0 {
        (code_lead(d) + x / pow243(n - 1)) as u8
    } else {
        trail_byte((x / pow243(n - 1 - i)) % 243) as u8
    }
}

/// The chunk that encodes delta `d`.
pub open spec fn delta_code(d: int) -> Seq<u8> {
    Seq::new(code_len(d) as nat, |i: int| code_byte(d, i))
}

/// Number of bytes in a chunk that starts with lead byte `lead`.
pub open spec fn lead_len(lead: int) -> int {
    if lead <= 0x21 {
        4
    } else if lead <= 0x24 {
        3
    } else if lead <= 0x4F {
        2
    } else if lead <= 0xCF {
        1
    } else if lead <= 0xFA {
        2
    } else if lead <= 0xFD {
        3
    } else {
        4
    }
}

/// The delta from which the window of lead byte `lead` is measured.
pub open spec fn lead_offset(lead: int) -> int {
    if lead <= 0x21 {
        -0x2DD0C
    } else if lead <= 0x24 {
        -0x2911
    } else if lead <= 0x4F {
        -0x40
    } else if lead <= 0xCF {
        0
    } else if lead <= 0xFA {
        0x40
    } else if lead <= 0xFD {
        0x2911
    } else {
        0x2DD0C
    }
}

/// The lead byte that stands for leading digit zero in the window of
/// `lead`.
pub open spec fn lead_base(lead: int) -> int {
    if lead <= 0x21 {
        0x22
    } else if lead <= 0x24 {
        0x25
    } else if lead <= 0x4F {
        0x50
    } else if lead <= 0xCF {
        0x90
    } else if lead <= 0xFA {
        0xD0
    } else if lead <= 0xFD {
        0xFB
    } else {
        0xFE
    }
}

/// The bytes that begin a chunk of the variable-length code.
pub open spec fn is_lead_byte(b: u8) -> bool {
    0x20 < b < 0xFF
}

/// Position of the first excluded byte among the trail bytes `b[1..n]`, or
/// `n` where there is none.
pub open spec fn first_bad_trail(b: Seq<u8>, n: int) -> int {
    if 1 < n && is_excluded_byte(b[1] as int) {
        1
    } else if 2 < n && is_excluded_byte(b[2] as int) {
        2
    } else if 3 < n && is_excluded_byte(b[3] as int) {
        3
    } else {
        n
    }
}

/// The number that the first `n` bytes of `b` spell in base 243, the lead
/// byte counted from the base of its window.
pub open spec fn code_value(b: Seq<u8>, n: int) -> int
    decreases n,
{
    if n <= 1 {
        b[0] - lead_base(b[0] as int)
    } else {
        code_value(b, n - 1) * 243 + trail_index(b[n - 1] as int)
    }
}

/// What decoding the chunk at the head of `b` gives: the delta and the
/// number of bytes taken, or the error. `b` starts with a lead byte.
pub open spec fn delta_of_code(b: Seq<u8>) -> Result<(int, int), DecodeError> {
    let n = lead_len(b[0] as int);
    let bad = first_bad_trail(b, n);
    if b.len() < n {
        Err(DecodeError::TruncatedInput)
    } else if bad < n {
        Err(DecodeError::TrailByteOutOfRange(b[bad]))
    } else {
        Ok((code_value(b, n) + lead_offset(b[0] as int), n))
    }
}

/// Dividing twice by 243 is dividing by the next power, for negative
/// numbers too.
pub proof fn lemma_div_pow243(x: int, k: int)
    requires
        0 <= k <= 2,
    ensures
        (x / pow243(k)) / 243 == x / pow243(k + 1),
{
    let q1 = x / pow243(k);
    let r1 = x % pow243(k);
    let q2 = q1 / 243;
    let r2 = q1 % 243;
    crate::util::lemma_euclid(x, pow243(k));
    crate::util::lemma_euclid(q1, 243);
    if k == 0 {
        crate::util::lemma_euclid_unique(x, 243, q2, r2);
    } else if k == 1 {
        crate::util::lemma_euclid_unique(x, 59049, q2, r2 * 243 + r1);
    } else {
        crate::util::lemma_euclid_unique(x, 14348907, q2, r2 * 59049 + r1);
    }
}

/// The shape of a chunk: its lead byte is a lead byte of the window of the
/// right length, and no trail byte is an excluded byte.
pub proof fn lemma_delta_code_shape(d: int)
    requires
        delta_in_range(d),
    ensures
        delta_code(d).len() == code_len(d),
        1 <= code_len(d) <= 4,
        is_lead_byte(delta_code(d)[0]),
        delta_code(d)[0] == code_lead(d) + (d - code_offset(d)) / pow243(code_len(d) - 1),
        lead_len(delta_code(d)[0] as int) == code_len(d),
        lead_offset(delta_code(d)[0] as int) == code_offset(d),
        lead_base(delta_code(d)[0] as int) == code_lead(d),
        forall|i: int|
            1 <= i < code_len(d) ==> {
                &&& !is_excluded_byte(#[trigger] delta_code(d)[i] as int)
                &&& trail_index(delta_code(d)[i] as int) == ((d - code_offset(d)) / pow243(
                    code_len(d) - 1 - i,
                )) % 243
            },
{
    let n = code_len(d);
    let x = d - code_offset(d);
    crate::util::lemma_euclid(x, pow243(n - 1));
    assert forall|i: int| 1 <= i < n implies {
        &&& !is_excluded_byte(#[trigger] delta_code(d)[i] as int)
        &&& trail_index(delta_code(d)[i] as int) == (x / pow243(n - 1 - i)) % 243
    } by {
        let t = (x / pow243(n - 1 - i)) % 243;
        crate::trailing_byte_selection::lemma_trail_byte_range(t);
        crate::trailing_byte_selection::lemma_trail_index_of_trail_byte(t);
    }
}

/// Encodes a delta as a chunk of one to four bytes.
#[inline]
pub fn encode_delta(delta: i32) -> (chunk: EncodedChunk)
    requires
        delta_in_range(delta as int),
    ensures
        chunk.wf(),
        chunk.count == code_len(delta as int),
        chunk@ == delta_code(delta as int),
{
    let (offset, lead, len): (i32, u8, usize) = if delta < -0x0002_DD0C {
        (-0x0002_DD0C, 0x22, 4)
    } else if delta < -0x0000_2911 {
        (-0x0000_2911, 0x25, 3)
    } else if delta < -0x0000_0040 {
        (-0x0000_0040, 0x50, 2)
    } else if delta <= 0x0000_003F {
        (0x0000_0000, 0x90, 1)
    } else if delta <= 0x0000_2910 {
        (0x0000_0040, 0xD0, 2)
    } else if delta <= 0x0002_DD0B {
        (0x0000_2911, 0xFB, 3)
    } else {
        (0x0002_DD0C, 0xFE, 4)
    };

    // Buffer to store the sequence.
    let mut buf: [u8; 4] = [lead, 0x0, 0x0, 0x0];

    // Value to encode base-243 digits of, in the target window.
    let mut d: i32 = delta - offset;
    let ghost x: int = delta - offset;

    // Select the trailing bytes, from least to greatest.
    let divisor: i32 = N_TRAIL_VALUES;
    let mut i: usize = len;
    while i > 1
        invariant
            divisor == 243,
            1 <= i <= len <= 4,
            len == code_len(delta as int),
            x == delta - code_offset(delta as int),
            delta_in_range(delta as int),
            d == x / pow243(len - i),
            buf[0] == lead,
            forall|j: int| i <= j < len ==> buf[j] == code_byte(delta as int, j),
        decreases i,
    {
        i = i - 1;
        proof {
            lemma_quotient_fits_i32(d, divisor);
            lemma_div_pow243(x, len - 1 - i);
        }
        let m: i32 = Euc::mod_euc(d, divisor);
        d = Euc::div_euc(d, divisor);
        buf[i] = trail_to_byte(m as u8);
    }

    // Adjust in the leading byte.
    proof {
        lemma_delta_code_shape(delta as int);
    }
    let init: i32 = buf[0] as i32 + d;
    buf[0] = init as u8;
    let chunk = EncodedChunk { bytes: buf, count: len };
    assert(chunk@ =~= delta_code(delta as int));
    chunk
}

/// Decodes the chunk at the head of `b`, which starts with a lead byte, and
/// returns the delta with the bytes that follow the chunk.
#[inline]
pub fn decode_delta(b: &[u8]) -> (r: Result<(i32, &[u8]), DecodeError>)
    requires
        b@.len() > 0,
        is_lead_byte(b@[0]),
    ensures
        match delta_of_code(b@) {
            Ok((delta, n)) => r is Ok && r.unwrap().0 == delta && r.unwrap().1@ == b@.skip(n),
            Err(e) => r == Err::<(i32, &[u8]), DecodeError>(e),
        },
{
    let lead: u8 = b[0];

    let (offset, base, len): (i32, u8, usize) = if lead <= 0x21 {
        (-0x0002_DD0C, 0x22, 4)
    } else if lead <= 0x24 {
        (-0x0000_2911, 0x25, 3)
    } else if lead <= 0x4F {
        (-0x0000_0040, 0x50, 2)
    } else if lead <= 0xCF {
        (0x0000_0000, 0x90, 1)
    } else if lead <= 0xFA {
        (0x0000_0040, 0xD0, 2)
    } else if lead <= 0xFD {
        (0x0000_2911, 0xFB, 3)
    } else {
        (0x0002_DD0C, 0xFE, 4)
    };

    if b.len() < len {
        return Err(DecodeError::TruncatedInput);
    }
    let mut delta: i32 = lead as i32 - base as i32;
    let radix: i32 = N_TRAIL_VALUES;
    let mut i: usize = 1;
    while i < len
        invariant
            radix == 243,
            1 <= i <= len <= 4,
            len <= b@.len(),
            len == lead_len(b@[0] as int),
            delta == code_value(b@, i as int),
            -64 * pow243(i - 1) <= delta < 64 * pow243(i - 1),
            first_bad_trail(b@, i as int) == i,
        decreases len - i,
    {
        let t: u8 = match byte_to_trail(b[i]) {
            Ok(t) => t,
            Err(e) => {
                return Err(e);
            },
        };
        delta = delta * radix;
        delta = delta + t as i32;
        i = i + 1;
    }
    delta = delta + offset;
    Ok((delta, vstd::slice::slice_subrange(b, len, b.len())))
}

/// One digit of the base-243 expansion: the quotient by one power is 243
/// times the quotient by the next power, plus the digit.
pub proof fn lemma_digit_step(x: int, k: int)
    requires
        0 <= k <= 2,
    ensures
        x / pow243(k) == (x / pow243(k + 1)) * 243 + (x / pow243(k)) % 243,
        0 <= (x / pow243(k)) % 243 < 243,
{
    lemma_div_pow243(x, k);
    crate::util::lemma_euclid(x / pow243(k), 243);
}

/// Decoding undoes encoding: the chunk of `d`, followed by any bytes,
/// decodes to `d` and takes exactly the chunk.
pub proof fn lemma_delta_code_roundtrip(d: int, rest: Seq<u8>)
    requires
        delta_in_range(d),
    ensures
        delta_of_code(delta_code(d) + rest) == Ok::<(int, int), DecodeError>((d, code_len(d))),
{
    let c = delta_code(d);
    let b = c + rest;
    let n = code_len(d);
    let x = d - code_offset(d);
    lemma_delta_code_shape(d);
    assert(forall|i: int| 0 <= i < n ==> b[i] == c[i]);
    assert(b[0] == c[0]);
    reveal_with_fuel(code_value, 5);
    if n >= 2 {
        assert(b[n - 1] == c[n - 1]);
        lemma_digit_step(x, 0);
    }
    if n >= 3 {
        assert(b[n - 2] == c[n - 2]);
        lemma_digit_step(x, 1);
    }
    if n >= 4 {
        assert(b[n - 3] == c[n - 3]);
        lemma_digit_step(x, 2);
    }
    assert(first_bad_trail(b, n) == n);
    assert(code_value(b, n) == x);
}

/// The lead bytes of each window: which lead byte a delta gets, by range.
pub proof fn lemma_lead_window(d: int)
    requires
        delta_in_range(d),
    ensures
        d < -0x2DD0C ==> delta_code(d)[0] == 0x21,
        -0x2DD0C <= d < -0x2911 ==> 0x22 <= delta_code(d)[0] <= 0x24,
        -0x2911 <= d < -0x40 ==> 0x25 <= delta_code(d)[0] <= 0x4F,
        -0x40 <= d <= 0x3F ==> delta_code(d)[0] == 0x90 + d,
        0x3F < d <= 0x2910 ==> 0xD0 <= delta_code(d)[0] <= 0xFA,
        0x2910 < d <= 0x2DD0B ==> 0xFB <= delta_code(d)[0] <= 0xFD,
        0x2DD0B < d ==> delta_code(d)[0] == 0xFE,
{
    let x = d - code_offset(d);
    if code_len(d) == 1 {
        crate::util::lemma_euclid_unique(x, 1, x, 0);
    } else if code_len(d) == 2 {
        crate::util::lemma_euclid(x, 243);
    } else if code_len(d) == 3 {
        crate::util::lemma_euclid(x, 59049);
    } else {
        crate::util::lemma_euclid(x, 14348907);
    }
}

/// The lead byte grows with the delta, and two deltas with one lead byte
/// lie in one window.
pub proof fn lemma_lead_monotone(d1: int, d2: int)
    requires
        delta_in_range(d1),
        delta_in_range(d2),
        d1 <= d2,
    ensures
        delta_code(d1)[0] <= delta_code(d2)[0],
        delta_code(d1)[0] == delta_code(d2)[0] ==> code_len(d1) == code_len(d2) && code_offset(d1)
            == code_offset(d2),
{
    lemma_lead_window(d1);
    lemma_lead_window(d2);
    if code_len(d1) == code_len(d2) && code_offset(d1) == code_offset(d2) {
        let x1 = d1 - code_offset(d1);
        let x2 = d2 - code_offset(d2);
        if code_len(d1) == 1 {
        } else if code_len(d1) == 2 {
            crate::util::lemma_euclid(x1, 243);
            crate::util::lemma_euclid(x2, 243);
        } else if code_len(d1) == 3 {
            crate::util::lemma_euclid(x1, 59049);
            crate::util::lemma_euclid(x2, 59049);
        } else {
            crate::util::lemma_euclid(x1, 14348907);
            crate::util::lemma_euclid(x2, 14348907);
        }
    }
}

/// The code keeps the order of the deltas: of two deltas, the chunk of the
/// smaller one holds the smaller byte at the first position where the two
/// chunks differ, and that position lies inside both chunks. The position
/// is returned.
pub proof fn lemma_delta_code_increasing(d1: int, d2: int) -> (k: int)
    requires
        delta_in_range(d1),
        delta_in_range(d2),
        d1 < d2,
    ensures
        differ_at(delta_code(d1), delta_code(d2), k),
{
    let c1 = delta_code(d1);
    let c2 = delta_code(d2);
    lemma_delta_code_shape(d1);
    lemma_delta_code_shape(d2);
    lemma_lead_monotone(d1, d2);
    if c1[0] != c2[0] {
        assert(c1.take(0) =~= c2.take(0));
        0
    } else {
        let n = code_len(d1);
        let x1 = d1 - code_offset(d1);
        let x2 = d2 - code_offset(d2);
        assert(n >= 2) by {
            lemma_lead_window(d1);
            lemma_lead_window(d2);
        }
        // The first digit position at which the two expansions part.
        let k: int = if x1 / pow243(n - 2) != x2 / pow243(n - 2) {
            1
        } else if n >= 3 && x1 / pow243(n - 3) != x2 / pow243(n - 3) {
            2
        } else {
            3
        };
        assert(k < n);
        lemma_digit_step(x1, n - 1 - k);
        lemma_digit_step(x2, n - 1 - k);
        crate::util::lemma_euclid(x1, pow243(n - 1 - k));
        crate::util::lemma_euclid(x2, pow243(n - 1 - k));
        let t1 = (x1 / pow243(n - 1 - k)) % 243;
        let t2 = (x2 / pow243(n - 1 - k)) % 243;
        assert(x1 / pow243(n - k) == x2 / pow243(n - k));
        assert(x1 / pow243(n - 1 - k) < x2 / pow243(n - 1 - k));
        assert(t1 < t2);
        crate::trailing_byte_selection::lemma_trail_byte_increasing(t1, t2);
        crate::trailing_byte_selection::lemma_trail_byte_range(t1);
        crate::trailing_byte_selection::lemma_trail_byte_range(t2);
        assert(c1.take(k) =~= c2.take(k));
        k
    }
}

/// Larger distances take no fewer bytes: the length of the chunk grows
/// with the delta above zero, and with its magnitude below zero.
pub proof fn lemma_code_len_monotone(d1: int, d2: int)
    ensures
        0 <= d1 <= d2 ==> code_len(d1) <= code_len(d2),
        d2 <= d1 <= 0 ==> code_len(d1) <= code_len(d2),
{
}

/// Two deltas with the same chunk are the same delta.
pub proof fn lemma_delta_code_injective(d1: int, d2: int)
    requires
        delta_in_range(d1),
        delta_in_range(d2),
        delta_code(d1) == delta_code(d2),
    ensures
        d1 == d2,
{
    if d1 < d2 {
        let k = lemma_delta_code_increasing(d1, d2);
    } else if d2 < d1 {
        let k = lemma_delta_code_increasing(d2, d1);
    }
}

} // verus!
