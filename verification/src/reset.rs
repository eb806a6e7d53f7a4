//! Reset bytes in an encoded stream.
//!
//! A producer may put the byte 0xFF between two chunks of an encoded
//! stream. The decoder takes it without yielding a code point and goes
//! back to its initial state. That leaves the decoded text as it was
//! wherever the following chunks do not depend on the state: where the
//! encoder's state is the initial state anyway, or where only spaces
//! follow up to the next control or to the end of the text.

use crate::delta_encoding::decode_from;
use crate::delta_encoding::encode_from;
use crate::delta_encoding::encoding;
use crate::delta_encoding::decoding;
use crate::delta_encoding::is_attractor;
use crate::delta_encoding::lemma_decode_from_code;
use crate::delta_encoding::lemma_initial_is_attractor;
use crate::delta_encoding::lemma_step_code_shape;
use crate::delta_encoding::state_after;
use crate::delta_encoding::step_code;
use crate::delta_encoding::step_state;
use crate::delta_encoding::INITIAL_PREVIOUS_STATE;
use vstd::prelude::*;

verus! {

/// A run of `n` reset bytes.
pub open spec fn resets(n: nat) -> Seq<u8> {
    Seq::new(n, |i: int| 0xFFu8)
}

/// The encoding of the code points `s` from state `prev`, with `gaps[i]`
/// reset bytes put in front of the chunk of `s[i]`, and `gaps[s.len()]`
/// reset bytes at the end. `gaps` holds one entry more than `s`.
pub open spec fn encode_with_resets(prev: char, s: Seq<char>, gaps: Seq<nat>) -> Seq<u8>
    decreases s.len(),
{
    if s.len() == 0 {
        resets(gaps[0])
    } else {
        resets(gaps[0]) + step_code(prev, s[0]) + encode_with_resets(
            step_state(prev, s[0]),
            s.drop_first(),
            gaps.drop_first(),
        )
    }
}

/// The chunks of `s` up to its first control do not depend on the state:
/// `s` is empty, or starts with a control below U+0020, or starts with a
/// space and the same holds of the rest.
pub open spec fn state_free(s: Seq<char>) -> bool
    decreases s.len(),
{
    s.len() == 0 || (s[0] as int) < 0x20 || ((s[0] as int) == 0x20 && state_free(s.drop_first()))
}

/// Every reset byte stands where it does no harm: in front of each code
/// point that has reset bytes before it, the encoder is in its initial
/// state or what follows is free of the state.
pub open spec fn resets_harmless(prev: char, s: Seq<char>, gaps: Seq<nat>) -> bool
    decreases s.len(),
{
    &&& gaps.len() == s.len() + 1
    &&& (gaps[0] > 0 ==> prev == INITIAL_PREVIOUS_STATE || state_free(s))
    &&& (s.len() > 0 ==> resets_harmless(step_state(prev, s[0]), s.drop_first(), gaps.drop_first()))
}

/// The decoder steps over a run of reset bytes and is in its initial state
/// after it, if the run is not empty.
pub proof fn lemma_decode_resets(prev: char, n: nat, rest: Seq<u8>)
    ensures
        decode_from(prev, resets(n) + rest) == decode_from(
            if n > 0 {
                INITIAL_PREVIOUS_STATE
            } else {
                prev
            },
            rest,
        ),
    decreases n,
{
    let b = resets(n) + rest;
    if n == 0 {
        assert(b =~= rest);
    } else {
        assert(b[0] == 0xFF);
        assert(b.skip(1) =~= resets((n - 1) as nat) + rest);
        lemma_decode_resets(INITIAL_PREVIOUS_STATE, (n - 1) as nat, rest);
    }
}

/// Decoder and encoder may be in different states as long as what is
/// encoded next is free of the state: the decoder still yields the text.
proof fn lemma_decode_with_resets(pe: char, pd: char, s: Seq<char>, gaps: Seq<nat>)
    requires
        is_attractor(pe),
        is_attractor(pd),
        resets_harmless(pe, s, gaps),
        pe == pd || state_free(s),
    ensures
        decode_from(pd, encode_with_resets(pe, s, gaps)) == s,
    decreases s.len(),
{
    lemma_initial_is_attractor();
    let pd1 = if gaps[0] > 0 {
        INITIAL_PREVIOUS_STATE
    } else {
        pd
    };
    if s.len() == 0 {
        lemma_decode_resets(pd, gaps[0], Seq::<u8>::empty());
        assert(resets(gaps[0]) + Seq::<u8>::empty() =~= resets(gaps[0]));
        assert(s =~= Seq::<char>::empty());
    } else {
        let c = s[0];
        let tail = encode_with_resets(step_state(pe, c), s.drop_first(), gaps.drop_first());
        let chunk = step_code(pe, c);
        lemma_decode_resets(pd, gaps[0], chunk + tail);
        assert(encode_with_resets(pe, s, gaps) =~= resets(gaps[0]) + (chunk + tail));
        lemma_step_code_shape(pe, c);
        lemma_step_code_shape(pd1, c);
        // The chunk does not depend on the state, or the states agree.
        assert(chunk == step_code(pd1, c));
        lemma_decode_from_code(pd1, c, tail);
        lemma_decode_with_resets(
            step_state(pe, c),
            step_state(pd1, c),
            s.drop_first(),
            gaps.drop_first(),
        );
        assert(s =~= seq![c] + s.drop_first());
    }
}

/// Reset bytes that stand where they do no harm leave the decoded text as
/// it is: the stream with the reset bytes decodes to the text.
pub proof fn lemma_resets_keep_decoding(s: Seq<char>, gaps: Seq<nat>)
    requires
        resets_harmless(INITIAL_PREVIOUS_STATE, s, gaps),
    ensures
        decoding(encode_with_resets(INITIAL_PREVIOUS_STATE, s, gaps)) == s,
        decoding(encode_with_resets(INITIAL_PREVIOUS_STATE, s, gaps)) == decoding(encoding(s)),
{
    lemma_initial_is_attractor();
    lemma_decode_with_resets(INITIAL_PREVIOUS_STATE, INITIAL_PREVIOUS_STATE, s, gaps);
    crate::delta_encoding::lemma_decoding_of_encoding(s);
}

/// With no reset byte anywhere the stream is the plain encoding.
pub proof fn lemma_no_resets(prev: char, s: Seq<char>, gaps: Seq<nat>)
    requires
        gaps.len() == s.len() + 1,
        forall|i: int| 0 <= i < gaps.len() ==> gaps[i] == 0,
    ensures
        encode_with_resets(prev, s, gaps) == encode_from(prev, s),
    decreases s.len(),
{
    assert(resets(0) =~= Seq::<u8>::empty());
    if s.len() == 0 {
    } else {
        lemma_no_resets(step_state(prev, s[0]), s.drop_first(), gaps.drop_first());
        assert(encode_with_resets(prev, s, gaps) =~= encode_from(prev, s));
    }
}

/// Reset bytes put into an encoding at one place, behind the chunks of the
/// first `k` code points, leave the decoded text as it is, if the encoder
/// is in its initial state there or what follows is free of the state.
pub proof fn lemma_resets_at(s: Seq<char>, k: int, n: nat)
    requires
        0 <= k <= s.len(),
        state_after(INITIAL_PREVIOUS_STATE, s.take(k)) == INITIAL_PREVIOUS_STATE || state_free(
            s.skip(k),
        ),
    ensures
        encoding(s) == encoding(s.take(k)) + encode_from(
            state_after(INITIAL_PREVIOUS_STATE, s.take(k)),
            s.skip(k),
        ),
        decoding(
            encoding(s.take(k)) + resets(n) + encode_from(
                state_after(INITIAL_PREVIOUS_STATE, s.take(k)),
                s.skip(k),
            ),
        ) == s,
{
    let init = INITIAL_PREVIOUS_STATE;
    let head = s.take(k);
    let rest = s.skip(k);
    let q = state_after(init, head);
    lemma_initial_is_attractor();
    crate::delta_encoding::lemma_state_after_is_attractor(init, head);
    crate::delta_encoding::lemma_encode_from_concat(init, head, rest);
    assert(head + rest =~= s);
    let gaps = Seq::new((rest.len() + 1) as nat, |i: int| if i == 0 { n } else { 0nat });
    lemma_single_gap(q, rest, n, gaps);
    let q1 = if n > 0 { init } else { q };
    crate::delta_encoding::lemma_decode_encode_from(
        init,
        head,
        resets(n) + encode_from(q, rest),
    );
    assert(encoding(head) + resets(n) + encode_from(q, rest) =~= encoding(head) + (resets(n)
        + encode_from(q, rest)));
    lemma_decode_with_resets(q, q, rest, gaps);
}

/// The stream with reset bytes in front only.
proof fn lemma_single_gap(prev: char, s: Seq<char>, n: nat, gaps: Seq<nat>)
    requires
        is_attractor(prev),
        gaps.len() == s.len() + 1,
        gaps[0] == n,
        forall|i: int| 1 <= i < gaps.len() ==> gaps[i] == 0,
        n > 0 ==> prev == INITIAL_PREVIOUS_STATE || state_free(s),
    ensures
        encode_with_resets(prev, s, gaps) == resets(n) + encode_from(prev, s),
        resets_harmless(prev, s, gaps),
{
    if s.len() == 0 {
        assert(resets(n) + encode_from(prev, s) =~= resets(n));
    } else {
        let next = step_state(prev, s[0]);
        lemma_no_resets(next, s.drop_first(), gaps.drop_first());
        lemma_zero_gaps_harmless(next, s.drop_first(), gaps.drop_first());
        assert(encode_with_resets(prev, s, gaps) =~= resets(n) + encode_from(prev, s));
    }
}

/// Where there are no reset bytes, none does harm.
proof fn lemma_zero_gaps_harmless(prev: char, s: Seq<char>, gaps: Seq<nat>)
    requires
        gaps.len() == s.len() + 1,
        forall|i: int| 0 <= i < gaps.len() ==> gaps[i] == 0,
    ensures
        resets_harmless(prev, s, gaps),
    decreases s.len(),
{
    if s.len() > 0 {
        lemma_zero_gaps_harmless(step_state(prev, s[0]), s.drop_first(), gaps.drop_first());
    }
}

/// A decoder that is in another state than the encoder was does not get
/// the text back, unless the text is free of the state.
proof fn lemma_other_state_changes_decoding(pe: char, pd: char, s: Seq<char>)
    requires
        is_attractor(pe),
        is_attractor(pd),
        pe != pd,
        !state_free(s),
    ensures
        decode_from(pd, encode_from(pe, s)) != s,
    decreases s.len(),
{
    let c = s[0];
    let tail = encode_from(step_state(pe, c), s.drop_first());
    let chunk = step_code(pe, c);
    let b = chunk + tail;
    lemma_step_code_shape(pe, c);
    crate::delta_encoding::lemma_char_is_scalar(c);
    assert(b[0] == chunk[0]);
    if (c as int) == 0x20 {
        assert(chunk == step_code(pd, c));
        lemma_decode_from_code(pd, c, tail);
        lemma_other_state_changes_decoding(pe, pd, s.drop_first());
        let got = decode_from(pd, tail);
        if seq![c] + got == s {
            assert((seq![c] + got).drop_first() =~= got);
        }
    } else {
        crate::delta_encoding::lemma_attractor_range(pe);
        crate::delta_encoding::lemma_attractor_range(pd);
        let d = (c as int) - (pe as int);
        assert(crate::variable_length_code::delta_in_range(d));
        crate::variable_length_code::lemma_delta_code_roundtrip(d, tail);
        let candidate = (pd as int) + d;
        assert(candidate != c as int);
        match crate::delta_encoding::decode_step(pd, b) {
            Err(_) => {
                assert(decode_from(pd, b).len() == 0);
            },
            Ok(step) => {
                assert(step.item == Some(candidate as char));
                assert(decode_from(pd, b)[0] == candidate as char);
            },
        }
    }
}

/// Reset bytes put behind the chunks of the first `k` code points of an
/// encoding change the decoded text wherever the condition of
/// `lemma_resets_at` does not hold: the condition leaves out no place
/// where reset bytes are harmless.
pub proof fn lemma_resets_elsewhere_change_decoding(s: Seq<char>, k: int, n: nat)
    requires
        0 <= k <= s.len(),
        n > 0,
        state_after(INITIAL_PREVIOUS_STATE, s.take(k)) != INITIAL_PREVIOUS_STATE,
        !state_free(s.skip(k)),
    ensures
        decoding(
            encoding(s.take(k)) + resets(n) + encode_from(
                state_after(INITIAL_PREVIOUS_STATE, s.take(k)),
                s.skip(k),
            ),
        ) != s,
{
    let init = INITIAL_PREVIOUS_STATE;
    let head = s.take(k);
    let rest = s.skip(k);
    let q = state_after(init, head);
    lemma_initial_is_attractor();
    crate::delta_encoding::lemma_state_after_is_attractor(init, head);
    assert(head + rest =~= s);
    crate::delta_encoding::lemma_decode_encode_from(
        init,
        head,
        resets(n) + encode_from(q, rest),
    );
    assert(encoding(head) + resets(n) + encode_from(q, rest) =~= encoding(head) + (resets(n)
        + encode_from(q, rest)));
    lemma_decode_resets(q, n, encode_from(q, rest));
    lemma_other_state_changes_decoding(q, init, rest);
    let got = decode_from(init, encode_from(q, rest));
    if head + got == s {
        assert((head + got).skip(k) =~= got);
    }
}

} // verus!
