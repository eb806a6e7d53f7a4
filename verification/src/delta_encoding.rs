//! The delta coder.
//!
//! Plain delta coding emits the difference between each value and the one
//! before it. Here the value before is first normalized: it is snapped to a
//! fixed point in the middle of its script's block. Text seldom changes
//! script inside a word, so after one large jump into a block the following
//! code points tend to lie within 64 of the block's middle and take one
//! byte each.
//!
//! Two kinds of code point bypass the delta code. The space U+0020 stands
//! for itself and leaves the state alone, so that the spaces between words
//! do not pull the state back to the ASCII block. The controls below U+0020
//! stand for themselves and reset the state, which lets a reader pick up
//! the stream again after any line break. The byte 0xFF, which the encoder
//! never writes, resets the decoder's state too.

use crate::iter::DecodeError;
use crate::iter::EncodedChunk;
use crate::variable_length_code::code_value;
use crate::variable_length_code::decode_delta;
use crate::variable_length_code::delta_code;
use crate::variable_length_code::delta_in_range;
use crate::variable_length_code::delta_of_code;
use crate::variable_length_code::encode_delta;
use crate::variable_length_code::first_bad_trail;
use crate::variable_length_code::is_lead_byte;
use crate::variable_length_code::lead_len;
use crate::variable_length_code::LEAD_BYTE_ASCII_SP;
use crate::variable_length_code::LEAD_BYTE_RESET;
use crate::trailing_byte_selection::is_excluded_byte;
use vstd::prelude::*;

verus! {

/// The state of a fresh coder, and the state after every reset.
pub const INITIAL_PREVIOUS_STATE: char = '\u{40}';

/// The space, which stands for itself and leaves the state alone.
pub const ASCII_SP: char = '\u{20}';

/// The numbers that are Unicode scalar values.
pub open spec fn is_scalar(u: int) -> bool {
    0 <= u < 0xD800 || 0xE000 <= u <= 0x10FFFF
}

/// `char::from_u32` of std: the scalar value with the number `i`, and
/// `None` for a surrogate or a number above U+10FFFF.
pub assume_specification[ char::from_u32 ](i: u32) -> (r: Option<char>)
    ensures
        is_scalar(i as int) ==> r == Some(i as char),
        !is_scalar(i as int) ==> r is None,
;

/// The point to which the state snaps after code point `c`: a fixed point
/// for each of the three large scripts, and else the middle of the block
/// of 128 code points that holds `c`.
pub open spec fn normalize(c: char) -> char {
    let u = c as int;
    if 0x3040 <= u <= 0x309F {
        '\u{3070}'
    } else if 0x4E00 <= u <= 0x9FA5 {
        '\u{7711}'
    } else if 0xAC00 <= u <= 0xD7A3 {
        '\u{C1D1}'
    } else {
        ((u / 128) * 128 + 64) as char
    }
}

/// The states that a coder can be in: the values that `normalize` takes.
pub open spec fn is_attractor(p: char) -> bool {
    exists|c: char| normalize(c) == p
}

/// Every `char` is a Unicode scalar value.
pub proof fn lemma_char_is_scalar(c: char)
    ensures
        is_scalar(c as int),
{
}

/// The middle of a block of 128 code points is a code point, and lies
/// between U+0040 and U+10FFC0.
pub proof fn lemma_block_middle(c: char)
    ensures
        is_scalar(((c as int) / 128) * 128 + 64),
        0x40 <= ((c as int) / 128) * 128 + 64 <= 0x10FFC0,
        (((c as int) / 128) * 128 + 64) as char as int == ((c as int) / 128) * 128 + 64,
{
}

/// Every value of `normalize` lies between U+0040 and U+10FFC0.
pub proof fn lemma_normalize_range(c: char)
    ensures
        0x40 <= normalize(c) as int <= 0x10FFC0,
        is_attractor(normalize(c)),
{
    lemma_block_middle(c);
}

/// Every state lies between U+0040 and U+10FFC0, so the distance from a
/// state to a code point above U+0020 is a delta that the code covers.
pub proof fn lemma_attractor_range(p: char)
    requires
        is_attractor(p),
    ensures
        0x40 <= p as int <= 0x10FFC0,
        forall|c: char| (c as int) > 0x20 ==> #[trigger] delta_in_range((c as int) - (p as int)),
{
    let c = choose|c: char| normalize(c) == p;
    lemma_normalize_range(c);
}

/// The initial state is a state.
pub proof fn lemma_initial_is_attractor()
    ensures
        is_attractor(INITIAL_PREVIOUS_STATE),
{
    lemma_block_middle('\u{41}');
    assert(normalize('\u{41}') == INITIAL_PREVIOUS_STATE);
}

/// Normalizes a code point to the point from which the next delta is
/// measured.
pub fn normalized_prev(curr: char) -> (r: char)
    ensures
        r == normalize(curr),
{
    if '\u{3040}' <= curr && curr <= '\u{309F}' {
        // Hiragana
        '\u{3070}'
    } else if '\u{4E00}' <= curr && curr <= '\u{9FA5}' {
        // Unihan
        '\u{7711}'
    } else if '\u{AC00}' <= curr && curr <= '\u{D7A3}' {
        // Hangul
        '\u{C1D1}'
    } else {
        // Most small scripts start at a multiple of 128, so take the
        // middle of the block of 128 that holds the code point.
        let cu32: u32 = curr as u32;
        let guess_curr_block_start: u32 = cu32 & 0xffff_ff80_u32;
        assert(cu32 & 0xffff_ff80_u32 == (cu32 / 128) * 128) by (bit_vector);
        proof {
            lemma_block_middle(curr);
        }
        let guess_curr_block_middle: u32 = guess_curr_block_start + 0x40;
        let opt = char::from_u32(guess_curr_block_middle);
        opt.unwrap()
    }
}

/// The bytes that encode code point `c` when the state is `prev`.
pub open spec fn step_code(prev: char, c: char) -> Seq<u8> {
    if c as int <= 0x20 {
        seq![c as u8]
    } else {
        delta_code((c as int) - (prev as int))
    }
}

/// The state after code point `c`, when the state before it is `prev`.
pub open spec fn step_state(prev: char, c: char) -> char {
    if (c as int) < 0x20 {
        INITIAL_PREVIOUS_STATE
    } else if c as int == 0x20 {
        prev
    } else {
        normalize(c)
    }
}

/// What one decoding step yields: the code point, if the step yields one,
/// the number of bytes that it takes, and the state after it.
pub struct DecodedStep {
    pub item: Option<char>,
    pub taken: int,
    pub state: char,
}

/// One decoding step on the non-empty input `b` in state `prev`.
pub open spec fn decode_step(prev: char, b: Seq<u8>) -> Result<DecodedStep, DecodeError> {
    let lead = b[0];
    if lead == 0xFF {
        Ok(DecodedStep { item: None, taken: 1, state: INITIAL_PREVIOUS_STATE })
    } else if lead < 0x20 {
        Ok(DecodedStep { item: Some(lead as char), taken: 1, state: INITIAL_PREVIOUS_STATE })
    } else if lead == 0x20 {
        Ok(DecodedStep { item: Some(lead as char), taken: 1, state: prev })
    } else {
        match delta_of_code(b) {
            Err(e) => Err(e),
            Ok((delta, n)) => {
                let candidate = (prev as int) + delta;
                if is_scalar(candidate) {
                    Ok(
                        DecodedStep {
                            item: Some(candidate as char),
                            taken: n,
                            state: normalize(candidate as char),
                        },
                    )
                } else {
                    Err(DecodeError::CharDeltaOutOfRange(prev, delta as i32))
                }
            },
        }
    }
}

/// A decoded delta is small: adding it to a code point cannot overflow.
pub proof fn lemma_delta_of_code_bounds(b: Seq<u8>)
    requires
        b.len() > 0,
        is_lead_byte(b[0]),
        delta_of_code(b) is Ok,
    ensures
        1 <= delta_of_code(b).unwrap().1 <= 4,
        delta_of_code(b).unwrap().1 <= b.len(),
        delta_of_code(b).unwrap().1 == lead_len(b[0] as int),
        -0x4000_0000 < delta_of_code(b).unwrap().0 < 0x4000_0000,
{
    reveal_with_fuel(code_value, 5);
    let n = lead_len(b[0] as int);
    assert(first_bad_trail(b, n) == n);
    if n >= 2 {
        crate::trailing_byte_selection::lemma_trail_byte_of_trail_index(b[1] as int);
    }
    if n >= 3 {
        crate::trailing_byte_selection::lemma_trail_byte_of_trail_index(b[2] as int);
    }
    if n >= 4 {
        crate::trailing_byte_selection::lemma_trail_byte_of_trail_index(b[3] as int);
    }
}

/// The coder's state: the normalized code point from which the next delta
/// is measured.
pub struct DeltaCoder {
    prev: char,
}

impl DeltaCoder {
    #[verifier::type_invariant]
    spec fn inv(&self) -> bool {
        is_attractor(self.prev)
    }

    /// The state.
    pub closed spec fn prev(&self) -> char {
        self.prev
    }

    /// The state, read at run time.
    pub fn state(&self) -> (p: char)
        ensures
            p == self.prev(),
            is_attractor(p),
    {
        proof {
            use_type_invariant(self);
        }
        self.prev
    }

    /// A coder in the initial state.
    pub fn new() -> (r: Self)
        ensures
            r.prev() == INITIAL_PREVIOUS_STATE,
            is_attractor(r.prev()),
    {
        proof {
            lemma_initial_is_attractor();
        }
        Self { prev: INITIAL_PREVIOUS_STATE }
    }

    /// Encodes one code point and moves the state on.
    #[inline]
    pub fn encode_char(&mut self, curr: char) -> (chunk: EncodedChunk)
        ensures
            chunk.wf(),
            chunk@ == step_code(old(self).prev(), curr),
            final(self).prev() == step_state(old(self).prev(), curr),
            is_attractor(old(self).prev()),
            is_attractor(final(self).prev()),
    {
        proof {
            use_type_invariant(&*self);
            lemma_attractor_range(self.prev);
            lemma_initial_is_attractor();
            lemma_normalize_range(curr);
        }
        if curr <= ASCII_SP {
            if curr != ASCII_SP {
                self.prev = INITIAL_PREVIOUS_STATE;
            }
            EncodedChunk::new_single(curr as u8)
        } else {
            assert(delta_in_range((curr as int) - (self.prev as int)));
            let delta: i32 = (curr as i32) - (self.prev as i32);
            self.prev = normalized_prev(curr);
            encode_delta(delta)
        }
    }

    /// Decodes the step at the head of the non-empty input `b`: a code
    /// point, or nothing for a reset byte, with the bytes that follow.
    pub fn decode_char<'a>(&mut self, b: &'a [u8]) -> (r: Result<
        (Option<char>, &'a [u8]),
        DecodeError,
    >)
        requires
            b@.len() > 0,
        ensures
            is_attractor(old(self).prev()),
            is_attractor(final(self).prev()),
            match decode_step(old(self).prev(), b@) {
                Ok(step) => {
                    &&& r is Ok
                    &&& r.unwrap().0 == step.item
                    &&& r.unwrap().1@ == b@.skip(step.taken)
                    &&& 1 <= step.taken <= b@.len()
                    &&& step.taken <= 4
                    &&& final(self).prev() == step.state
                },
                Err(e) => {
                    &&& r == Err::<(Option<char>, &'a [u8]), DecodeError>(e)
                    &&& final(self).prev() == old(self).prev()
                },
            },
    {
        proof {
            use_type_invariant(&*self);
            lemma_attractor_range(self.prev);
            lemma_initial_is_attractor();
        }
        let init: u8 = b[0];
        if init == LEAD_BYTE_RESET {
            self.prev = INITIAL_PREVIOUS_STATE;
            Ok((None, vstd::slice::slice_subrange(b, 1, b.len())))
        } else if init <= LEAD_BYTE_ASCII_SP {
            if init != LEAD_BYTE_ASCII_SP {
                self.prev = INITIAL_PREVIOUS_STATE;
            }
            Ok((Some(init as char), vstd::slice::slice_subrange(b, 1, b.len())))
        } else {
            let (delta, rest) = match decode_delta(b) {
                Ok(pair) => pair,
                Err(e) => {
                    return Err(e);
                },
            };
            proof {
                lemma_delta_of_code_bounds(b@);
            }
            let candidate: i32 = (self.prev as i32) + delta;
            let c = if candidate < 0 {
                None
            } else {
                char::from_u32(candidate as u32)
            };
            match c {
                None => Err(DecodeError::CharDeltaOutOfRange(self.prev, delta)),
                Some(ch) => {
                    proof {
                        lemma_normalize_range(ch);
                    }
                    self.prev = normalized_prev(ch);
                    Ok((Some(ch), rest))
                },
            }
        }
    }
}

/// The bytes that encode the code points `s`, starting in state `prev`.
pub open spec fn encode_from(prev: char, s: Seq<char>) -> Seq<u8>
    decreases s.len(),
{
    if s.len() == 0 {
        Seq::<u8>::empty()
    } else {
        step_code(prev, s[0]) + encode_from(step_state(prev, s[0]), s.drop_first())
    }
}

/// The state after encoding the code points `s`, starting in state `prev`.
pub open spec fn state_after(prev: char, s: Seq<char>) -> char
    decreases s.len(),
{
    if s.len() == 0 {
        prev
    } else {
        state_after(step_state(prev, s[0]), s.drop_first())
    }
}

/// The encoding of the code points `s`.
pub open spec fn encoding(s: Seq<char>) -> Seq<u8> {
    encode_from(INITIAL_PREVIOUS_STATE, s)
}

/// The code points that the bytes `b` decode to, starting in state `prev`
/// and stopping at the first error.
pub open spec fn decode_from(prev: char, b: Seq<u8>) -> Seq<char>
    decreases b.len(),
{
    if b.len() == 0 {
        Seq::<char>::empty()
    } else {
        match decode_step(prev, b) {
            Err(_) => Seq::<char>::empty(),
            Ok(step) => {
                if 1 <= step.taken <= b.len() {
                    let rest = decode_from(step.state, b.skip(step.taken));
                    match step.item {
                        Some(c) => seq![c] + rest,
                        None => rest,
                    }
                } else {
                    Seq::<char>::empty()
                }
            },
        }
    }
}

/// The decoding of the bytes `b`, up to the first error.
pub open spec fn decoding(b: Seq<u8>) -> Seq<char> {
    decode_from(INITIAL_PREVIOUS_STATE, b)
}

/// The results that the bytes `b` decode to, starting in state `prev`: a
/// code point for each step that yields one, and an error for each step
/// that fails, after which decoding goes on one byte further in the same
/// state.
pub open spec fn decode_results_from(prev: char, b: Seq<u8>) -> Seq<Result<char, DecodeError>>
    decreases b.len(),
{
    if b.len() == 0 {
        Seq::<Result<char, DecodeError>>::empty()
    } else {
        match decode_step(prev, b) {
            Err(e) => seq![Err::<char, DecodeError>(e)] + decode_results_from(prev, b.skip(1)),
            Ok(step) => {
                if 1 <= step.taken <= b.len() {
                    let rest = decode_results_from(step.state, b.skip(step.taken));
                    match step.item {
                        Some(c) => seq![Ok::<char, DecodeError>(c)] + rest,
                        None => rest,
                    }
                } else {
                    Seq::<Result<char, DecodeError>>::empty()
                }
            },
        }
    }
}

/// Number of bytes in the chunk that starts with byte `first`: one for a
/// byte that stands for itself and for the reset byte, and else the length
/// that the lead byte announces.
pub open spec fn chunk_len(first: u8) -> int {
    if is_lead_byte(first) {
        lead_len(first as int)
    } else {
        1
    }
}

/// The first byte of a chunk determines its length.
pub proof fn lemma_first_byte_gives_length(prev: char, c: char)
    requires
        is_attractor(prev),
    ensures
        step_code(prev, c).len() == chunk_len(step_code(prev, c)[0]),
{
    lemma_step_code_shape(prev, c);
    lemma_char_is_scalar(c);
    if (c as int) > 0x20 {
        lemma_attractor_range(prev);
        let d = (c as int) - (prev as int);
        assert(delta_in_range(d));
        crate::variable_length_code::lemma_delta_code_shape(d);
    }
}

/// A step that succeeds takes at least one byte and no more than there
/// are, and leaves a state.
pub proof fn lemma_decode_step_taken(prev: char, b: Seq<u8>)
    requires
        b.len() > 0,
        decode_step(prev, b) is Ok,
        is_attractor(prev),
    ensures
        1 <= decode_step(prev, b).unwrap().taken <= b.len(),
        decode_step(prev, b).unwrap().taken <= 4,
        is_attractor(decode_step(prev, b).unwrap().state),
{
    lemma_initial_is_attractor();
    if is_lead_byte(b[0]) {
        lemma_delta_of_code_bounds(b);
        let c = decode_step(prev, b).unwrap().item.unwrap();
        lemma_normalize_range(c);
    }
}

/// The chunk of a code point holds one to four bytes, and the state after
/// the code point is a state.
pub proof fn lemma_step_code_shape(prev: char, c: char)
    requires
        is_attractor(prev),
    ensures
        1 <= step_code(prev, c).len() <= 4,
        is_attractor(step_state(prev, c)),
        (c as int) <= 0x20 ==> step_code(prev, c) == seq![c as u8],
        (c as int) > 0x20 ==> is_lead_byte(step_code(prev, c)[0]),
        (c as int) > 0x20 ==> forall|i: int|
            1 <= i < step_code(prev, c).len() ==> !is_excluded_byte(
                #[trigger] step_code(prev, c)[i] as int,
            ),
{
    lemma_initial_is_attractor();
    lemma_normalize_range(c);
    lemma_attractor_range(prev);
    if (c as int) > 0x20 {
        assert(delta_in_range((c as int) - (prev as int)));
        crate::variable_length_code::lemma_delta_code_shape((c as int) - (prev as int));
    }
}

/// One decoding step undoes one encoding step, whatever bytes follow.
pub proof fn lemma_decode_step_of_code(prev: char, c: char, rest: Seq<u8>)
    requires
        is_attractor(prev),
    ensures
        decode_step(prev, step_code(prev, c) + rest) == Ok::<DecodedStep, DecodeError>(
            DecodedStep {
                item: Some(c),
                taken: step_code(prev, c).len() as int,
                state: step_state(prev, c),
            },
        ),
{
    let chunk = step_code(prev, c);
    let b = chunk + rest;
    lemma_step_code_shape(prev, c);
    assert(b[0] == chunk[0]);
    if (c as int) <= 0x20 {
        assert(chunk[0] as char == c);
    } else {
        lemma_attractor_range(prev);
        let d = (c as int) - (prev as int);
        assert(delta_in_range(d));
        crate::variable_length_code::lemma_delta_code_roundtrip(d, rest);
        crate::variable_length_code::lemma_delta_code_shape(d);
        assert(((prev as int) + d) as char == c);
    }
}

/// Decoding a stream that starts with the chunk of `c` yields `c` and goes
/// on behind the chunk in the state after `c`.
pub proof fn lemma_decode_from_code(prev: char, c: char, rest: Seq<u8>)
    requires
        is_attractor(prev),
    ensures
        decode_from(prev, step_code(prev, c) + rest) == seq![c] + decode_from(
            step_state(prev, c),
            rest,
        ),
        decode_results_from(prev, step_code(prev, c) + rest) == seq![Ok::<char, DecodeError>(c)]
            + decode_results_from(step_state(prev, c), rest),
{
    let chunk = step_code(prev, c);
    let b = chunk + rest;
    lemma_step_code_shape(prev, c);
    lemma_decode_step_of_code(prev, c, rest);
    assert(b.skip(chunk.len() as int) =~= rest);
}

/// The encoding of a concatenation: the second part is encoded in the
/// state that the first part leaves.
pub proof fn lemma_encode_from_concat(prev: char, s: Seq<char>, t: Seq<char>)
    ensures
        encode_from(prev, s + t) == encode_from(prev, s) + encode_from(state_after(prev, s), t),
        state_after(prev, s + t) == state_after(state_after(prev, s), t),
    decreases s.len(),
{
    if s.len() == 0 {
        assert(s + t =~= t);
        assert(encode_from(prev, s) + encode_from(prev, t) =~= encode_from(prev, t));
    } else {
        assert((s + t).drop_first() =~= s.drop_first() + t);
        lemma_encode_from_concat(step_state(prev, s[0]), s.drop_first(), t);
        assert(encode_from(prev, s + t) =~= encode_from(prev, s) + encode_from(
            state_after(prev, s),
            t,
        ));
    }
}

/// The state after any code points is a state.
pub proof fn lemma_state_after_is_attractor(prev: char, s: Seq<char>)
    requires
        is_attractor(prev),
    ensures
        is_attractor(state_after(prev, s)),
    decreases s.len(),
{
    if s.len() > 0 {
        lemma_step_code_shape(prev, s[0]);
        lemma_state_after_is_attractor(step_state(prev, s[0]), s.drop_first());
    }
}

/// Decoding undoes encoding in every state and before any further bytes:
/// the decoder yields the code points, arrives in the encoder's state, and
/// goes on with what follows.
pub proof fn lemma_decode_encode_from(prev: char, s: Seq<char>, tail: Seq<u8>)
    requires
        is_attractor(prev),
    ensures
        decode_from(prev, encode_from(prev, s) + tail) == s + decode_from(
            state_after(prev, s),
            tail,
        ),
    decreases s.len(),
{
    if s.len() == 0 {
        assert(encode_from(prev, s) + tail =~= tail);
        assert(s + decode_from(prev, tail) =~= decode_from(prev, tail));
    } else {
        let c = s[0];
        let next = step_state(prev, c);
        let rest = encode_from(next, s.drop_first()) + tail;
        lemma_step_code_shape(prev, c);
        lemma_decode_from_code(prev, c, rest);
        lemma_decode_encode_from(next, s.drop_first(), tail);
        assert(encode_from(prev, s) + tail =~= step_code(prev, c) + rest);
        assert(seq![c] + (s.drop_first() + decode_from(state_after(next, s.drop_first()), tail))
            =~= s + decode_from(state_after(prev, s), tail));
    }
}

/// Round trip: decoding the encoding of any code points gives them back.
pub proof fn lemma_decoding_of_encoding(s: Seq<char>)
    ensures
        decoding(encoding(s)) == s,
{
    lemma_initial_is_attractor();
    lemma_decode_encode_from(INITIAL_PREVIOUS_STATE, s, Seq::<u8>::empty());
    assert(encoding(s) + Seq::<u8>::empty() =~= encoding(s));
    assert(s + Seq::<char>::empty() =~= s);
}

/// An excluded byte stands in an encoding only where the code point of
/// the same number stands in the text, and every such code point puts its
/// byte into the encoding. So the encoding holds NUL, a control in
/// 0x07..=0x0F, SUB, ESC or the space exactly if the text does.
pub proof fn lemma_excluded_bytes(prev: char, s: Seq<char>, b: u8)
    requires
        is_attractor(prev),
        is_excluded_byte(b as int),
    ensures
        encode_from(prev, s).contains(b) <==> s.contains(b as char),
    decreases s.len(),
{
    let e = encode_from(prev, s);
    if s.len() == 0 {
        assert(!e.contains(b));
        assert(!s.contains(b as char));
    } else {
        let c = s[0];
        let chunk = step_code(prev, c);
        let tail = encode_from(step_state(prev, c), s.drop_first());
        lemma_step_code_shape(prev, c);
        lemma_excluded_bytes(step_state(prev, c), s.drop_first(), b);
        if s.contains(b as char) {
            let j = choose|j: int| 0 <= j < s.len() && s[j] == b as char;
            if j == 0 {
                assert(chunk[0] == b);
                assert(e[0] == b);
            } else {
                assert(s.drop_first()[j - 1] == b as char);
                assert(s.drop_first().contains(b as char));
                let i = choose|i: int| 0 <= i < tail.len() && tail[i] == b;
                assert(e[chunk.len() + i] == b);
            }
        }
        if e.contains(b) {
            let i = choose|i: int| 0 <= i < e.len() && e[i] == b;
            if i < chunk.len() {
                assert(e[i] == chunk[i]);
                if (c as int) > 0x20 {
                    if i > 0 {
                        assert(!is_excluded_byte(chunk[i] as int));
                    }
                    assert(false);
                }
                assert(chunk == seq![c as u8]);
                assert(i == 0);
                assert(chunk[0] == c as u8);
                lemma_char_is_scalar(c);
                assert((c as u8) as int == c as int);
                assert(b as int == c as int);
                assert(s[0] == b as char);
            } else {
                assert(e[i] == tail[i - chunk.len()]);
                assert(tail.contains(b));
                let j = choose|j: int|
                    0 <= j < s.drop_first().len() && s.drop_first()[j] == b as char;
                assert(s[j + 1] == b as char);
            }
        }
    }
}

/// No byte of an encoding is 0xFF in lead position: the encoder never
/// writes the reset marker. Stated for the first byte of every chunk.
pub proof fn lemma_step_code_never_reset(prev: char, c: char)
    requires
        is_attractor(prev),
    ensures
        step_code(prev, c)[0] != LEAD_BYTE_RESET,
{
    lemma_step_code_shape(prev, c);
}

} // verus!
