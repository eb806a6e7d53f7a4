//! The result word of the C encoder.
//!
//! The BOCU-1 sample code in C, `encodeBocu1`, returns the bytes of one
//! code point in a 32-bit integer. A chunk of four bytes fills the word,
//! first byte highest. A shorter chunk stands in the low bytes, and the
//! high byte holds the number of bytes, 1 to 3. The two cannot be mixed
//! up: the first byte of a four-byte chunk is 0x21 or 0xFE.

use crate::iter::EncodedChunk;
use crate::packed::lemma_pow256_values;
use crate::packed::value_bytes;
use cty::int32_t;
use vstd::prelude::*;

verus! {

/// The 32-bit word as an unsigned number.
pub open spec fn word_value(packed: i32) -> nat {
    if packed < 0 {
        (packed + 0x1_0000_0000) as nat
    } else {
        packed as nat
    }
}

/// Number of bytes that the word holds: its high byte where that is 1, 2
/// or 3, and else 4.
pub open spec fn word_count(packed: i32) -> nat {
    let a = word_value(packed) / 0x100_0000;
    if 0 < a < 4 {
        a
    } else {
        4
    }
}

/// The bytes that the word holds: the last `word_count` of its four bytes.
pub open spec fn word_chunk(packed: i32) -> Seq<u8> {
    value_bytes(word_value(packed), 4).skip(4 - word_count(packed))
}

/// Takes the chunk out of a result word of the C encoder.
pub fn packed_to_chunk(packed: int32_t) -> (chunk: EncodedChunk)
    ensures
        chunk.wf(),
        chunk.count == word_count(packed),
        chunk@ == word_chunk(packed),
        forall|i: int| chunk.count <= i < 4 ==> chunk.bytes[i] == 0,
{
    let ghost v = word_value(packed);
    assert({
        &&& 0 <= (packed >> 24) & 0xff < 256
        &&& 0 <= (packed >> 16) & 0xff < 256
        &&& 0 <= (packed >> 8) & 0xff < 256
        &&& 0 <= packed & 0xff < 256
    }) by (bit_vector);
    let a: u8 = ((packed >> 24) & 0xff) as u8;
    let b: u8 = ((packed >> 16) & 0xff) as u8;
    let c: u8 = ((packed >> 8) & 0xff) as u8;
    let d: u8 = (packed & 0xff) as u8;
    proof {
        lemma_pow256_values();
        let u: u32 = v as u32;
        assert(u == packed as u32) by (bit_vector)
            requires
                u == (if packed < 0 {
                    packed + 0x1_0000_0000
                } else {
                    packed as int
                }),
        ;
        assert({
            &&& (packed >> 24) & 0xff == (u / 0x100_0000) % 256
            &&& (packed >> 16) & 0xff == (u / 0x1_0000) % 256
            &&& (packed >> 8) & 0xff == (u / 0x100) % 256
            &&& packed & 0xff == u % 256
        }) by (bit_vector)
            requires
                u == packed as u32,
        ;
        assert(u / 0x100_0000 < 256) by (bit_vector);
        let full = value_bytes(v, 4);
        assert(v / 1 == v);
        assert(full[0] == a && full[1] == b && full[2] == c && full[3] == d);
    }
    let count: usize = if a > 0 && a < 4 {
        a as usize
    } else {
        4
    };
    let bytes: [u8; 4] = if count == 1 {
        [d, 0, 0, 0]
    } else if count == 2 {
        [c, d, 0, 0]
    } else if count == 3 {
        [b, c, d, 0]
    } else {
        [a, b, c, d]
    };
    let chunk = EncodedChunk { bytes: bytes, count: count };
    assert(chunk@ =~= word_chunk(packed));
    chunk
}

} // verus!
