//! Short encodings packed into one unsigned integer.
//!
//! An encoding of at most as many bytes as the integer type holds is kept
//! in a single scalar: the first byte of the encoding is the most
//! significant byte of the integer, and the low bytes that the encoding
//! does not reach are zero. The encoded string "\xAA\xBB\xCC" packs into a
//! `u32` as 0xAABBCC00.
//!
//! Because the first byte is the highest one, comparing two packed values
//! as integers compares the strings that they hold byte by byte, and so
//! compares the texts code point by code point. A zero byte inside a packed
//! value cannot be told from the padding, so the packed form is meant for
//! texts without U+0000: the encoding of such a text holds no zero byte.

use crate::delta_encoding::decode_results_from;
use crate::delta_encoding::decoding;
use crate::delta_encoding::encoding;
use crate::delta_encoding::lemma_initial_is_attractor;
use crate::delta_encoding::DeltaCoder;
use crate::delta_encoding::INITIAL_PREVIOUS_STATE;
use crate::iter::lemma_decode_from_is_ok_prefix;
use crate::iter::ok_prefix;
use crate::iter::DecodeError;
use crate::iter::EncodeBOCU1;
use crate::delta_encoding::lemma_decoding_of_encoding;
use crate::delta_encoding::lemma_excluded_bytes;
use crate::lex_order::bytes_lt;
use crate::lex_order::chars_order;
use crate::lex_order::lemma_chars_lt_total;
use crate::lex_order::lemma_encoding_keeps_order;
use vstd::prelude::*;

verus! {

/// `256^n`.
pub open spec fn pow256(n: nat) -> nat
    decreases n,
{
    if n == 0 {
        1
    } else {
        256 * pow256((n - 1) as nat)
    }
}

/// The powers of 256 at the widths of the integer types.
pub proof fn lemma_pow256_values()
    ensures
        pow256(0) == 1,
        pow256(1) == 0x100,
        pow256(2) == 0x1_0000,
        pow256(3) == 0x100_0000,
        pow256(4) == 0x1_0000_0000,
        pow256(7) == 0x100_0000_0000_0000,
        pow256(8) == 0x1_0000_0000_0000_0000,
        pow256(15) == 0x100_0000_0000_0000_0000_0000_0000_0000,
        pow256(16) == 0x1_0000_0000_0000_0000_0000_0000_0000_0000,
{
    reveal_with_fuel(pow256, 17);
}

/// The powers of 256 grow with the exponent and are positive.
pub proof fn lemma_pow256_monotone(a: nat, b: nat)
    requires
        a <= b,
    ensures
        0 < pow256(a) <= pow256(b),
    decreases b,
{
    if a < b {
        lemma_pow256_monotone(a, (b - 1) as nat);
    } else if a > 0 {
        lemma_pow256_monotone((a - 1) as nat, (a - 1) as nat);
    }
}

/// Byte `i` of `s`, and zero behind its end.
pub open spec fn byte_at(s: Seq<u8>, i: int) -> nat {
    if 0 <= i < s.len() {
        s[i] as nat
    } else {
        0
    }
}

/// The number whose `w` bytes, most significant first, are the first `w`
/// bytes of `s`, with zero bytes where `s` ends before that.
pub open spec fn packed_value(s: Seq<u8>, w: nat) -> nat
    decreases w,
{
    if w == 0 {
        0
    } else {
        byte_at(s, 0) * pow256((w - 1) as nat) + packed_value(
            if s.len() > 0 {
                s.drop_first()
            } else {
                s
            },
            (w - 1) as nat,
        )
    }
}

/// Byte `i` of the `w` bytes of `v`, most significant first.
pub open spec fn byte_of_value(v: nat, w: nat, i: int) -> u8 {
    ((v / pow256((w - 1 - i) as nat)) % 256) as u8
}

/// The `w` bytes of `v`, most significant first.
pub open spec fn value_bytes(v: nat, w: nat) -> Seq<u8> {
    Seq::new(w, |i: int| byte_of_value(v, w, i))
}

/// `s` without the zero bytes at its end.
pub open spec fn strip_trailing_zeros(s: Seq<u8>) -> Seq<u8>
    decreases s.len(),
{
    if s.len() == 0 || s.last() != 0 {
        s
    } else {
        strip_trailing_zeros(s.drop_last())
    }
}

/// The encoded bytes that the packed value `v` of `w` bytes holds: its
/// bytes without the padding.
pub open spec fn unpacked_bytes(v: nat, w: nat) -> Seq<u8> {
    strip_trailing_zeros(value_bytes(v, w))
}

/// A packed value of `w` bytes is below `256^w`.
pub proof fn lemma_packed_value_bound(s: Seq<u8>, w: nat)
    ensures
        packed_value(s, w) < pow256(w),
    decreases w,
{
    if w > 0 {
        let t = if s.len() > 0 {
            s.drop_first()
        } else {
            s
        };
        lemma_packed_value_bound(t, (w - 1) as nat);
        let p = pow256((w - 1) as nat);
        let h = byte_at(s, 0);
        assert(h * p + packed_value(t, (w - 1) as nat) < 256 * p) by (nonlinear_arith)
            requires
                h <= 255,
                packed_value(t, (w - 1) as nat) < p,
        ;
    }
}

/// One byte more: the value of the first `w + 1` bytes is 256 times the
/// value of the first `w` bytes, plus the next byte.
pub proof fn lemma_packed_value_step(s: Seq<u8>, w: nat)
    ensures
        packed_value(s, w + 1) == packed_value(s, w) * 256 + byte_at(s, w as int),
    decreases w,
{
    let t = if s.len() > 0 {
        s.drop_first()
    } else {
        s
    };
    let h = byte_at(s, 0);
    if w == 0 {
        assert(packed_value(t, 0) == 0);
        assert(pow256(0) == 1);
        assert(packed_value(s, 1) == h * pow256(0) + packed_value(t, 0));
        assert(packed_value(s, 0) == 0);
        assert(h * pow256(0) == h) by (nonlinear_arith)
            requires
                pow256(0) == 1,
        ;
        assert(packed_value(s, w + 1) == packed_value(s, w) * 256 + byte_at(s, w as int));
    } else {
        lemma_packed_value_step(t, (w - 1) as nat);
        assert(byte_at(t, w - 1) == byte_at(s, w as int));
        let p = pow256((w - 1) as nat);
        let r = packed_value(t, (w - 1) as nat);
        assert(packed_value(s, w) == h * p + r);
        assert(packed_value(t, w) == r * 256 + byte_at(s, w as int));
        assert(packed_value(s, w + 1) == h * pow256(w) + packed_value(t, w));
        assert(pow256(w) == 256 * p);
        let x = byte_at(s, w as int);
        let big = pow256(w);
        assert(h * big + (r * 256 + x) == (h * p + r) * 256 + x) by (nonlinear_arith)
            requires
                big == 256 * p,
        ;
        assert(packed_value(s, w + 1) == packed_value(s, w) * 256 + byte_at(s, w as int));
    }
}

/// An unsigned integer type that holds a packed encoding: a fixed number
/// of bytes, to which a byte can be appended at the low end and from which
/// the low byte can be taken.
pub trait PackedScalar: Copy + Sized {
    /// Number of bytes in the type.
    spec fn byte_width() -> nat;

    /// The value as a number.
    spec fn as_nat(self) -> nat;

    /// The type holds between 1 and 16 bytes, and each value is below
    /// `256^byte_width()`.
    proof fn lemma_scalar_bound(self)
        ensures
            1 <= Self::byte_width() <= 16,
            self.as_nat() < pow256(Self::byte_width()),
    ;

    /// Number of bytes in the type.
    fn size() -> (n: usize)
        ensures
            n == Self::byte_width(),
            1 <= n <= 16,
    ;

    /// The value zero.
    fn zero() -> (z: Self)
        ensures
            z.as_nat() == 0,
    ;

    /// Shifts the value up by one byte and puts `b` into the low byte.
    /// The high byte of the value is zero before.
    fn push_byte(self, b: u8) -> (r: Self)
        requires
            self.as_nat() < pow256((Self::byte_width() - 1) as nat),
        ensures
            r.as_nat() == self.as_nat() * 256 + b,
    ;

    /// The low byte.
    fn low_byte(self) -> (b: u8)
        ensures
            b == self.as_nat() % 256,
    ;

    /// Shifts the value down by one byte.
    fn drop_byte(self) -> (r: Self)
        ensures
            r.as_nat() == self.as_nat() / 256,
    ;
}

/// `TryFrom<u8>` for `u8` of the crate `try_from`: always the value.
#[verifier::external_body]
fn byte_from_u8(n: u8) -> (r: Option<u8>)
    ensures
        r == Some(n),
{
    <u8 as try_from::TryFrom<u8>>::try_from(n).ok()
}

/// `TryFrom<u16>` for `u8` of the crate `try_from`: the value where it is
/// at most 255, and else an overflow error, given here as `None`.
#[verifier::external_body]
fn byte_from_u16(n: u16) -> (r: Option<u8>)
    ensures
        n <= 0xff ==> r == Some(n as u8),
        n > 0xff ==> r is None,
{
    <u8 as try_from::TryFrom<u16>>::try_from(n).ok()
}

/// `TryFrom<u32>` for `u8` of the crate `try_from`: the value where it is
/// at most 255, and else an overflow error, given here as `None`.
#[verifier::external_body]
fn byte_from_u32(n: u32) -> (r: Option<u8>)
    ensures
        n <= 0xff ==> r == Some(n as u8),
        n > 0xff ==> r is None,
{
    <u8 as try_from::TryFrom<u32>>::try_from(n).ok()
}

/// `TryFrom<u64>` for `u8` of the crate `try_from`: the value where it is
/// at most 255, and else an overflow error, given here as `None`.
#[verifier::external_body]
fn byte_from_u64(n: u64) -> (r: Option<u8>)
    ensures
        n <= 0xff ==> r == Some(n as u8),
        n > 0xff ==> r is None,
{
    <u8 as try_from::TryFrom<u64>>::try_from(n).ok()
}

/// `TryFrom<u128>` for `u8` of the crate `try_from`: the value where it
/// is at most 255, and else an overflow error, given here as `None`.
#[verifier::external_body]
fn byte_from_u128(n: u128) -> (r: Option<u8>)
    ensures
        n <= 0xff ==> r == Some(n as u8),
        n > 0xff ==> r is None,
{
    <u8 as try_from::TryFrom<u128>>::try_from(n).ok()
}

impl PackedScalar for u8 {
    open spec fn byte_width() -> nat {
        1
    }

    open spec fn as_nat(self) -> nat {
        self as nat
    }

    proof fn lemma_scalar_bound(self) {
        lemma_pow256_values();
    }

    fn size() -> (n: usize) {
        1
    }

    fn zero() -> (z: Self) {
        0
    }

    fn push_byte(self, b: u8) -> (r: Self) {
        proof {
            lemma_pow256_values();
        }
        b
    }

    fn low_byte(self) -> (b: u8) {
        match byte_from_u8(self) {
            Some(b) => b,
            None => 0,
        }
    }

    fn drop_byte(self) -> (r: Self) {
        0
    }
}

impl PackedScalar for u16 {
    open spec fn byte_width() -> nat {
        2
    }

    open spec fn as_nat(self) -> nat {
        self as nat
    }

    proof fn lemma_scalar_bound(self) {
        lemma_pow256_values();
    }

    fn size() -> (n: usize) {
        2
    }

    fn zero() -> (z: Self) {
        0
    }

    fn push_byte(self, b: u8) -> (r: Self) {
        proof {
            lemma_pow256_values();
        }
        let wide: u16 = b as u16;
        assert(self < 0x100 && wide < 0x100 ==> ((self << 8) | wide) == self * 256 + wide)
            by (bit_vector);
        (self << 8) | wide
    }

    fn low_byte(self) -> (b: u8) {
        let low: u16 = self & 0xff;
        assert(self & 0xff == self % 256) by (bit_vector);
        match byte_from_u16(low) {
            Some(b) => b,
            None => 0,
        }
    }

    fn drop_byte(self) -> (r: Self) {
        assert(self >> 8 == self / 256) by (bit_vector);
        self >> 8
    }
}

impl PackedScalar for u32 {
    open spec fn byte_width() -> nat {
        4
    }

    open spec fn as_nat(self) -> nat {
        self as nat
    }

    proof fn lemma_scalar_bound(self) {
        lemma_pow256_values();
    }

    fn size() -> (n: usize) {
        4
    }

    fn zero() -> (z: Self) {
        0
    }

    fn push_byte(self, b: u8) -> (r: Self) {
        proof {
            lemma_pow256_values();
        }
        let wide: u32 = b as u32;
        assert(self < 0x100_0000 && wide < 0x100 ==> ((self << 8) | wide) == self * 256 + wide)
            by (bit_vector);
        (self << 8) | wide
    }

    fn low_byte(self) -> (b: u8) {
        let low: u32 = self & 0xff;
        assert(self & 0xff == self % 256) by (bit_vector);
        match byte_from_u32(low) {
            Some(b) => b,
            None => 0,
        }
    }

    fn drop_byte(self) -> (r: Self) {
        assert(self >> 8 == self / 256) by (bit_vector);
        self >> 8
    }
}

impl PackedScalar for u64 {
    open spec fn byte_width() -> nat {
        8
    }

    open spec fn as_nat(self) -> nat {
        self as nat
    }

    proof fn lemma_scalar_bound(self) {
        lemma_pow256_values();
    }

    fn size() -> (n: usize) {
        8
    }

    fn zero() -> (z: Self) {
        0
    }

    fn push_byte(self, b: u8) -> (r: Self) {
        proof {
            lemma_pow256_values();
        }
        let wide: u64 = b as u64;
        assert(self < 0x100_0000_0000_0000 && wide < 0x100 ==> ((self << 8) | wide) == self * 256
            + wide) by (bit_vector);
        (self << 8) | wide
    }

    fn low_byte(self) -> (b: u8) {
        let low: u64 = self & 0xff;
        assert(self & 0xff == self % 256) by (bit_vector);
        match byte_from_u64(low) {
            Some(b) => b,
            None => 0,
        }
    }

    fn drop_byte(self) -> (r: Self) {
        assert(self >> 8 == self / 256) by (bit_vector);
        self >> 8
    }
}

impl PackedScalar for u128 {
    open spec fn byte_width() -> nat {
        16
    }

    open spec fn as_nat(self) -> nat {
        self as nat
    }

    proof fn lemma_scalar_bound(self) {
        lemma_pow256_values();
    }

    fn size() -> (n: usize) {
        16
    }

    fn zero() -> (z: Self) {
        0
    }

    fn push_byte(self, b: u8) -> (r: Self) {
        proof {
            lemma_pow256_values();
        }
        let wide: u128 = b as u128;
        assert(self < 0x100_0000_0000_0000_0000_0000_0000_0000 && wide < 0x100 ==> ((self << 8)
            | wide) == self * 256 + wide) by (bit_vector);
        (self << 8) | wide
    }

    fn low_byte(self) -> (b: u8) {
        let low: u128 = self & 0xff;
        assert(self & 0xff == self % 256) by (bit_vector);
        match byte_from_u128(low) {
            Some(b) => b,
            None => 0,
        }
    }

    fn drop_byte(self) -> (r: Self) {
        assert(self >> 8 == self / 256) by (bit_vector);
        self >> 8
    }
}

/// Packs the encoding of a text into one scalar, or returns `None` where
/// the encoding is longer than the scalar.
pub fn pack<IT, N>(i: &IT) -> (r: Option<N>) where IT: EncodeBOCU1, N: PackedScalar
    ensures
        match r {
            Some(n) => {
                &&& encoding(i.code_points()).len() <= N::byte_width()
                &&& n.as_nat() == packed_value(encoding(i.code_points()), N::byte_width())
            },
            None => encoding(i.code_points()).len() > N::byte_width(),
        },
{
    let ghost all = encoding(i.code_points());
    let mut it = i.encode_bocu1();
    let mut tmp: N = N::zero();
    let mut n: usize = N::size();
    let ghost mut k: nat = 0;
    loop
        invariant
            it.wf(),
            all == encoding(i.code_points()),
            k + n == N::byte_width(),
            k <= all.len(),
            it.remaining() == all.skip(k as int),
            tmp.as_nat() == packed_value(all, k),
        ensures
            k == all.len(),
            k + n == N::byte_width(),
            tmp.as_nat() == packed_value(all, k),
        decreases it.remaining().len(),
    {
        match it.next() {
            None => {
                break ;
            },
            Some(c) => {
                if n == 0 {
                    assert(all.skip(k as int).len() == all.len() - k);
                    return None;
                }
                proof {
                    lemma_packed_value_bound(all, k);
                    lemma_pow256_monotone(k, (N::byte_width() - 1) as nat);
                    lemma_packed_value_step(all, k);
                    assert(all.skip(k as int).drop_first() =~= all.skip(k as int + 1));
                }
                tmp = tmp.push_byte(c);
                n = n - 1;
                proof {
                    k = k + 1;
                }
            },
        }
    }
    while n != 0
        invariant
            all.len() <= k,
            k + n == N::byte_width(),
            tmp.as_nat() == packed_value(all, k),
        decreases n,
    {
        proof {
            lemma_packed_value_bound(all, k);
            lemma_pow256_monotone(k, (N::byte_width() - 1) as nat);
            lemma_packed_value_step(all, k);
        }
        tmp = tmp.push_byte(0);
        n = n - 1;
        proof {
            k = k + 1;
        }
    }
    Some(tmp)
}

/// Stripping the zero bytes at the end, one byte further to the front: a
/// zero byte in front of nothing but zero bytes goes too.
pub proof fn lemma_strip_step(b: u8, s: Seq<u8>)
    ensures
        strip_trailing_zeros(seq![b] + s) == if b != 0 || strip_trailing_zeros(s).len() > 0 {
            seq![b] + strip_trailing_zeros(s)
        } else {
            Seq::<u8>::empty()
        },
    decreases s.len(),
{
    let t = seq![b] + s;
    if s.len() == 0 {
        assert(t =~= seq![b]);
        assert(t.last() == b);
        assert(t.drop_last() =~= Seq::<u8>::empty());
        assert(strip_trailing_zeros(s) =~= Seq::<u8>::empty());
        assert(strip_trailing_zeros(t.drop_last()) =~= Seq::<u8>::empty());
        assert(seq![b] + strip_trailing_zeros(s) =~= t);
    } else if s.last() != 0 {
        assert(t.last() == s.last());
        assert(strip_trailing_zeros(s) == s);
        assert(strip_trailing_zeros(t) == t);
    } else {
        assert(t.last() == s.last());
        assert(t.drop_last() =~= seq![b] + s.drop_last());
        lemma_strip_step(b, s.drop_last());
        assert(strip_trailing_zeros(s) == strip_trailing_zeros(s.drop_last()));
        assert(strip_trailing_zeros(t) == strip_trailing_zeros(t.drop_last()));
    }
}

/// Yields a result for each decoding step on the encoded bytes that a
/// packed value holds.
pub struct DecodePackedResultIter {
    state: DeltaCoder,
    // No scalar type holds more than 16 bytes. The bytes still to be
    // decoded are the last `rem` bytes of `buf`.
    buf: [u8; 16],
    rem: usize,
}

impl DecodePackedResultIter {
    /// No more bytes are left than the buffer holds.
    pub closed spec fn wf(&self) -> bool {
        self.rem <= 16
    }

    /// The bytes that are still to be decoded.
    pub closed spec fn pending(&self) -> Seq<u8> {
        self.buf@.skip(16 - self.rem)
    }

    /// The results that are still to come.
    pub closed spec fn results(&self) -> Seq<Result<char, DecodeError>> {
        decode_results_from(self.state.prev(), self.pending())
    }

    /// Where in the buffer the last `rem` bytes start.
    pub fn pos(rem: usize) -> (p: usize)
        requires
            rem <= 16,
        ensures
            p == 16 - rem,
    {
        16 - rem
    }

    /// The part of the buffer that holds the last `rem` bytes.
    pub fn range(rem: usize) -> (r: std::ops::Range<usize>)
        requires
            rem <= 16,
        ensures
            r.start == 16 - rem,
            r.end == 16,
    {
        (16 - rem)..16
    }

    /// An iterator over the results of decoding the bytes that the packed
    /// value `n` holds, from the initial state.
    pub fn new<N>(n: N) -> (r: Self) where N: PackedScalar
        ensures
            r.wf(),
            r.pending() == unpacked_bytes(n.as_nat(), N::byte_width()),
            r.results() == decode_results_from(
                INITIAL_PREVIOUS_STATE,
                unpacked_bytes(n.as_nat(), N::byte_width()),
            ),
    {
        // The first byte of the encoded string is the most significant
        // byte of the value. Walk from the low byte up and put the bytes
        // at the end of the buffer, leaving out the zero bytes below the
        // lowest byte that is not zero.
        let ghost v = n.as_nat();
        let ghost w = N::byte_width();
        let ghost full = value_bytes(v, w);
        let size: usize = N::size();
        let mut n: N = n;
        let mut buf: [u8; 16] = [0;16];
        let mut rem: usize = 0;
        let mut j: usize = 0;
        proof {
            lemma_pow256_values();
            assert(buf@.skip(16) =~= Seq::<u8>::empty());
            assert(full.skip(w as int) =~= Seq::<u8>::empty());
        }
        while j < size
            invariant
                size == w,
                1 <= w <= 16,
                full == value_bytes(v, w),
                rem <= j <= size,
                n.as_nat() == v / pow256(j as nat),
                buf@.skip(16 - rem) == strip_trailing_zeros(full.skip(w - j)),
            decreases size - j,
        {
            let byte: u8 = n.low_byte();
            proof {
                lemma_pow256_monotone(0, j as nat);
                lemma_div_pow256(v, j as nat);
                assert(full[w - j - 1] == byte);
                assert(full.skip(w - j - 1) =~= seq![byte] + full.skip(w - j));
                lemma_strip_step(byte, full.skip(w - j));
            }
            let ghost before = buf@.skip(16 - rem);
            if byte != 0 || rem > 0 {
                rem = rem + 1;
                buf[Self::pos(rem)] = byte;
                assert(buf@.skip(16 - rem) =~= seq![byte] + before);
            }
            n = n.drop_byte();
            j = j + 1;
        }
        assert(full.skip(0) =~= full);
        Self { state: DeltaCoder::new(), buf: buf, rem: rem }
    }

    /// The next result, or `None` when no byte is left.
    pub fn next(&mut self) -> (r: Option<Result<char, DecodeError>>)
        requires
            old(self).wf(),
        ensures
            final(self).wf(),
            match r {
                None => old(self).results().len() == 0 && final(self).results().len() == 0,
                Some(x) => {
                    &&& old(self).results().len() > 0
                    &&& x == old(self).results()[0]
                    &&& final(self).results() == old(self).results().drop_first()
                },
            },
    {
        loop
            invariant
                self.wf(),
                self.results() == old(self).results(),
            decreases self.rem,
        {
            if self.rem == 0 {
                assert(self.pending() =~= Seq::<u8>::empty());
                return None;
            }
            let ghost before = *self;
            let bytes: &[u8] = vstd::slice::slice_subrange(
                self.buf.as_slice(),
                Self::pos(self.rem),
                16,
            );
            assert(bytes@ =~= self.pending());
            match self.state.decode_char(bytes) {
                Ok((None, rest)) => {
                    self.rem = rest.len();
                    assert(self.pending() =~= rest@);
                },
                Ok((Some(c), rest)) => {
                    self.rem = rest.len();
                    assert(self.pending() =~= rest@);
                    assert(self.results() =~= before.results().drop_first());
                    return Some(Ok(c));
                },
                Err(e) => {
                    self.rem = self.rem - 1;
                    assert(self.pending() =~= before.pending().skip(1));
                    assert(self.results() =~= before.results().drop_first());
                    return Some(Err(e));
                },
            }
        }
    }

    /// Gives up the bytes that are left: no result is to come.
    fn halt(&mut self)
        ensures
            final(self).wf(),
            final(self).results().len() == 0,
    {
        self.rem = 0;
        assert(self.pending() =~= Seq::<u8>::empty());
    }

    /// All the results that are still to come.
    pub fn collect(self) -> (v: Vec<Result<char, DecodeError>>)
        requires
            self.wf(),
        ensures
            v@ == self.results(),
    {
        let mut it = self;
        let mut v: Vec<Result<char, DecodeError>> = Vec::new();
        loop
            invariant
                it.wf(),
                v@ + it.results() == self.results(),
            ensures
                v@ == self.results(),
            decreases it.results().len(),
        {
            let ghost before = it.results();
            match it.next() {
                None => {
                    assert(v@ + it.results() =~= v@);
                    break ;
                },
                Some(x) => {
                    v.push(x);
                    assert(v@ + it.results() =~= (v@.drop_last() + before));
                },
            }
        }
        v
    }
}

/// Dividing by a power of 256 and then by 256 is dividing by the next
/// power.
pub proof fn lemma_div_pow256(v: nat, j: nat)
    ensures
        (v / pow256(j)) / 256 == v / pow256(j + 1),
        pow256(j) > 0,
{
    lemma_pow256_monotone(0, j);
    vstd::arithmetic::div_mod::lemma_div_denominator(v as int, pow256(j) as int, 256);
    assert(pow256(j + 1) == 256 * pow256(j));
    assert(pow256(j) * 256 == 256 * pow256(j)) by (nonlinear_arith);
}

/// Yields the code points that the bytes of a packed value decode to, and
/// stops at the first error.
pub struct DecodePackedIter {
    inner: DecodePackedResultIter,
}

impl DecodePackedIter {
    /// The iterator is in a state that its own functions leave it in.
    pub closed spec fn wf(&self) -> bool {
        self.inner.wf()
    }

    /// The code points that are still to come.
    pub closed spec fn items(&self) -> Seq<char> {
        ok_prefix(self.inner.results())
    }

    /// An iterator over the code points that the bytes of the packed
    /// value `n` decode to.
    pub fn new<N>(n: N) -> (r: Self) where N: PackedScalar
        ensures
            r.wf(),
            r.items() == decoding(unpacked_bytes(n.as_nat(), N::byte_width())),
    {
        proof {
            lemma_initial_is_attractor();
            lemma_decode_from_is_ok_prefix(
                INITIAL_PREVIOUS_STATE,
                unpacked_bytes(n.as_nat(), N::byte_width()),
            );
        }
        Self { inner: DecodePackedResultIter::new(n) }
    }

    /// The next code point, or `None` at the end of the bytes or at the
    /// first error.
    pub fn next(&mut self) -> (r: Option<char>)
        requires
            old(self).wf(),
        ensures
            final(self).wf(),
            match r {
                None => old(self).items().len() == 0 && final(self).items().len() == 0,
                Some(c) => {
                    &&& old(self).items().len() > 0
                    &&& c == old(self).items()[0]
                    &&& final(self).items() == old(self).items().drop_first()
                },
            },
    {
        match self.inner.next() {
            None => None,
            Some(Err(_)) => {
                self.inner.halt();
                None
            },
            Some(Ok(c)) => {
                assert(old(self).items().drop_first() =~= self.items());
                Some(c)
            },
        }
    }

    /// All the code points that are still to come.
    pub fn collect(self) -> (v: Vec<char>)
        requires
            self.wf(),
        ensures
            v@ == self.items(),
    {
        let mut it = self;
        let mut v: Vec<char> = Vec::new();
        loop
            invariant
                it.wf(),
                v@ + it.items() == self.items(),
            ensures
                v@ == self.items(),
            decreases it.items().len(),
        {
            let ghost before = it.items();
            match it.next() {
                None => {
                    assert(v@ + it.items() =~= v@);
                    break ;
                },
                Some(c) => {
                    v.push(c);
                    assert(v@ + it.items() =~= (v@.drop_last() + before));
                },
            }
        }
        v
    }
}

/// Packed values that can be decoded.
pub trait DecodePackedBOCU1 {
    /// The encoded bytes that the value holds.
    spec fn packed_bytes(&self) -> Seq<u8>;

    /// An iterator over the code points that the value decodes to, up to
    /// the first error.
    fn decode_packed_bocu1(&self) -> (r: DecodePackedIter)
        ensures
            r.wf(),
            r.items() == decoding(self.packed_bytes()),
    ;
}

impl<T> DecodePackedBOCU1 for T where T: PackedScalar {
    open spec fn packed_bytes(&self) -> Seq<u8> {
        unpacked_bytes(self.as_nat(), T::byte_width())
    }

    fn decode_packed_bocu1(&self) -> (r: DecodePackedIter) {
        DecodePackedIter::new(*self)
    }
}

/// No byte of `s` is zero.
pub open spec fn no_zero_byte(s: Seq<u8>) -> bool {
    forall|i: int| 0 <= i < s.len() ==> s[i] != 0
}

/// The sign of the three-way comparison of two numbers: -1, 0 or 1.
pub open spec fn nat_order(x: nat, y: nat) -> int {
    if x == y {
        0
    } else if x < y {
        -1
    } else {
        1
    }
}

/// The packed value of the empty string is zero: it is all padding.
pub proof fn lemma_packed_value_empty(w: nat)
    ensures
        packed_value(Seq::<u8>::empty(), w) == 0,
    decreases w,
{
    if w > 0 {
        lemma_packed_value_empty((w - 1) as nat);
        assert(byte_at(Seq::<u8>::empty(), 0) * pow256((w - 1) as nat) == 0) by (nonlinear_arith)
            requires
                byte_at(Seq::<u8>::empty(), 0) == 0,
        ;
    }
}

/// Packing keeps the order of byte strings without a zero byte: the
/// packed values compare as the strings do, and are equal only for equal
/// strings.
pub proof fn lemma_packed_value_keeps_order(a: Seq<u8>, b: Seq<u8>, w: nat)
    requires
        a.len() <= w,
        b.len() <= w,
        no_zero_byte(a),
        no_zero_byte(b),
    ensures
        bytes_lt(a, b) == (packed_value(a, w) < packed_value(b, w)),
        (a == b) == (packed_value(a, w) == packed_value(b, w)),
    decreases w,
{
    if a.len() == 0 || b.len() == 0 {
        if a.len() == 0 {
            assert(a =~= Seq::<u8>::empty());
            lemma_packed_value_empty(w);
        }
        if b.len() == 0 {
            assert(b =~= Seq::<u8>::empty());
            lemma_packed_value_empty(w);
        }
        if a.len() > 0 {
            lemma_packed_value_positive(a, w);
        }
        if b.len() > 0 {
            lemma_packed_value_positive(b, w);
        }
    } else {
        let p = pow256((w - 1) as nat);
        let ra = packed_value(a.drop_first(), (w - 1) as nat);
        let rb = packed_value(b.drop_first(), (w - 1) as nat);
        let ha = a[0] as nat;
        let hb = b[0] as nat;
        lemma_packed_value_bound(a.drop_first(), (w - 1) as nat);
        lemma_packed_value_bound(b.drop_first(), (w - 1) as nat);
        assert(packed_value(a, w) == ha * p + ra);
        assert(packed_value(b, w) == hb * p + rb);
        if ha == hb {
            lemma_packed_value_keeps_order(a.drop_first(), b.drop_first(), (w - 1) as nat);
            if a.drop_first() == b.drop_first() {
                assert(a =~= seq![a[0]] + a.drop_first());
                assert(b =~= seq![b[0]] + b.drop_first());
            }
        } else if ha < hb {
            assert(ha * p + ra < hb * p + rb) by (nonlinear_arith)
                requires
                    ha < hb,
                    ra < p,
            ;
        } else {
            assert(hb * p + rb < ha * p + ra) by (nonlinear_arith)
                requires
                    hb < ha,
                    rb < p,
            ;
        }
    }
}

/// A string that starts with a byte other than zero packs to a value
/// other than zero.
pub proof fn lemma_packed_value_positive(a: Seq<u8>, w: nat)
    requires
        0 < a.len() <= w,
        a[0] != 0,
    ensures
        packed_value(a, w) > 0,
{
    let p = pow256((w - 1) as nat);
    lemma_pow256_monotone(0, (w - 1) as nat);
    let h = a[0] as nat;
    assert(h * p > 0) by (nonlinear_arith)
        requires
            h > 0,
            p > 0,
    ;
}

/// Packed lexicographic order: for texts without U+0000 whose encodings
/// fit into `w` bytes, the packed values compare as the texts compare code
/// point by code point.
pub proof fn lemma_pack_keeps_order(s1: Seq<char>, s2: Seq<char>, w: nat)
    requires
        encoding(s1).len() <= w,
        encoding(s2).len() <= w,
        !s1.contains('\u{0}'),
        !s2.contains('\u{0}'),
    ensures
        chars_order(s1, s2) == nat_order(
            packed_value(encoding(s1), w),
            packed_value(encoding(s2), w),
        ),
{
    lemma_encoding_has_no_zero_byte(s1);
    lemma_encoding_has_no_zero_byte(s2);
    lemma_packed_value_keeps_order(encoding(s1), encoding(s2), w);
    lemma_encoding_keeps_order(s1, s2);
    lemma_encoding_keeps_order(s2, s1);
    lemma_packed_value_keeps_order(encoding(s2), encoding(s1), w);
    lemma_chars_lt_total(s1, s2);
}

/// The encoding of a text without U+0000 holds no zero byte.
pub proof fn lemma_encoding_has_no_zero_byte(s: Seq<char>)
    requires
        !s.contains('\u{0}'),
    ensures
        no_zero_byte(encoding(s)),
{
    lemma_initial_is_attractor();
    lemma_excluded_bytes(INITIAL_PREVIOUS_STATE, s, 0u8);
    let e = encoding(s);
    assert forall|i: int| 0 <= i < e.len() implies e[i] != 0 by {
        if e[i] == 0 {
            assert(e.contains(0u8));
            assert(0u8 as char == '\u{0}');
        }
    }
}

/// The first `k` bytes of a packed value are the value of the first `k`
/// bytes of the string.
pub proof fn lemma_packed_value_prefix(e: Seq<u8>, w: nat, k: nat)
    requires
        k <= w,
    ensures
        packed_value(e, w) / pow256((w - k) as nat) == packed_value(e, k),
    decreases w - k,
{
    lemma_pow256_values();
    if k < w {
        lemma_packed_value_prefix(e, w, k + 1);
        lemma_packed_value_step(e, k);
        lemma_div_pow256(packed_value(e, w), (w - k - 1) as nat);
        let q = packed_value(e, k);
        let x = byte_at(e, k as int);
        assert((q * 256 + x) / 256 == q) by (nonlinear_arith)
            requires
                0 <= x < 256,
        ;
        let v = packed_value(e, w);
        let j = (w - k - 1) as nat;
        assert(v / pow256(j) == q * 256 + x);
        assert((j + 1) as nat == (w - k) as nat);
        assert((v / pow256(j)) / 256 == v / pow256(j + 1));
        assert(v / pow256((w - k) as nat) == q);
    } else {
        let v = packed_value(e, w);
        let one = pow256((w - k) as nat);
        assert(one == 1);
        assert(v / one == v) by (nonlinear_arith)
            requires
                one == 1,
        ;
    }
}

/// The bytes of a packed value are the bytes of the string, then zero
/// bytes.
pub proof fn lemma_value_bytes_of_packed(e: Seq<u8>, w: nat, i: int)
    requires
        0 <= i < w,
    ensures
        byte_of_value(packed_value(e, w), w, i) == byte_at(e, i),
{
    lemma_packed_value_prefix(e, w, (i + 1) as nat);
    lemma_packed_value_step(e, i as nat);
    let q = packed_value(e, i as nat);
    let x = byte_at(e, i);
    assert((q * 256 + x) % 256 == x) by (nonlinear_arith)
        requires
            0 <= x < 256,
    ;
}

/// Zero bytes behind a string that does not end in a zero byte are
/// stripped, and nothing else.
pub proof fn lemma_strip_padding(full: Seq<u8>, n: int)
    requires
        0 <= n <= full.len(),
        n > 0 ==> full[n - 1] != 0,
        forall|i: int| n <= i < full.len() ==> full[i] == 0,
    ensures
        strip_trailing_zeros(full) == full.take(n),
    decreases full.len(),
{
    if full.len() == n {
        assert(full.take(n) =~= full);
    } else {
        assert(full.last() == 0);
        lemma_strip_padding(full.drop_last(), n);
        assert(full.drop_last().take(n) =~= full.take(n));
    }
}

/// Unpacking undoes packing: the bytes that a packed value holds are the
/// string that was packed, if it fits and holds no zero byte.
pub proof fn lemma_unpacked_of_packed(e: Seq<u8>, w: nat)
    requires
        e.len() <= w,
        no_zero_byte(e),
    ensures
        unpacked_bytes(packed_value(e, w), w) == e,
{
    let v = packed_value(e, w);
    let full = value_bytes(v, w);
    assert forall|i: int| 0 <= i < w implies full[i] as nat == byte_at(e, i) by {
        lemma_value_bytes_of_packed(e, w, i);
    }
    lemma_strip_padding(full, e.len() as int);
    assert(full.take(e.len() as int) =~= e);
}

/// Packed round trip: a text without U+0000 whose encoding fits into `w`
/// bytes is what its packed value decodes to.
pub proof fn lemma_decode_packed_of_pack(s: Seq<char>, w: nat)
    requires
        encoding(s).len() <= w,
        !s.contains('\u{0}'),
    ensures
        decoding(unpacked_bytes(packed_value(encoding(s), w), w)) == s,
{
    lemma_encoding_has_no_zero_byte(s);
    lemma_unpacked_of_packed(encoding(s), w);
    lemma_decoding_of_encoding(s);
}

} // verus!
