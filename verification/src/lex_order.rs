//! Lexicographic order on byte strings and on code-point sequences.

use crate::delta_encoding::encode_from;
use crate::delta_encoding::encoding;
use crate::delta_encoding::is_attractor;
use crate::delta_encoding::lemma_attractor_range;
use crate::delta_encoding::lemma_char_is_scalar;
use crate::delta_encoding::lemma_initial_is_attractor;
use crate::delta_encoding::lemma_step_code_shape;
use crate::delta_encoding::step_code;
use crate::delta_encoding::step_state;
use crate::delta_encoding::INITIAL_PREVIOUS_STATE;
use crate::variable_length_code::delta_in_range;
use crate::variable_length_code::lemma_delta_code_increasing;
use vstd::prelude::*;

verus! {

/// `a` comes strictly before `b` in byte-wise lexicographic order: at the
/// first position where they differ `a` holds the smaller byte, or `a` is
/// a proper prefix of `b`.
pub open spec fn bytes_lt(a: Seq<u8>, b: Seq<u8>) -> bool
    decreases a.len(),
{
    if b.len() == 0 {
        false
    } else if a.len() == 0 {
        true
    } else if a[0] != b[0] {
        a[0] < b[0]
    } else {
        bytes_lt(a.drop_first(), b.drop_first())
    }
}

/// `a` comes strictly before `b` in lexicographic order by code point.
pub open spec fn chars_lt(a: Seq<char>, b: Seq<char>) -> bool
    decreases a.len(),
{
    if b.len() == 0 {
        false
    } else if a.len() == 0 {
        true
    } else if a[0] != b[0] {
        (a[0] as int) < (b[0] as int)
    } else {
        chars_lt(a.drop_first(), b.drop_first())
    }
}

/// The sign of the three-way comparison of two byte strings: -1, 0 or 1.
pub open spec fn bytes_order(a: Seq<u8>, b: Seq<u8>) -> int {
    if a == b {
        0
    } else if bytes_lt(a, b) {
        -1
    } else {
        1
    }
}

/// The sign of the three-way comparison of two code-point sequences.
pub open spec fn chars_order(a: Seq<char>, b: Seq<char>) -> int {
    if a == b {
        0
    } else if chars_lt(a, b) {
        -1
    } else {
        1
    }
}

/// `a` and `b` agree on their first `k` bytes, both hold a byte at `k`, and
/// there `a` holds the smaller one.
pub open spec fn differ_at(a: Seq<u8>, b: Seq<u8>, k: int) -> bool {
    &&& 0 <= k < a.len()
    &&& k < b.len()
    &&& a.take(k) == b.take(k)
    &&& a[k] < b[k]
}

/// Two strings that differ inside both of them are ordered by that
/// position, whatever follows them.
pub proof fn lemma_differ_at_decides(a: Seq<u8>, b: Seq<u8>, k: int, x: Seq<u8>, y: Seq<u8>)
    requires
        differ_at(a, b, k),
    ensures
        bytes_lt(a + x, b + y),
        !bytes_lt(b + y, a + x),
        a + x != b + y,
    decreases k,
{
    let p = a + x;
    let q = b + y;
    assert(p[k] == a[k] && q[k] == b[k]);
    if k == 0 {
        assert(p[0] < q[0]);
    } else {
        assert(a.take(k)[0] == b.take(k)[0]);
        assert(p[0] == q[0]);
        assert(a.drop_first().take(k - 1) =~= a.take(k).drop_first());
        assert(b.drop_first().take(k - 1) =~= b.take(k).drop_first());
        lemma_differ_at_decides(a.drop_first(), b.drop_first(), k - 1, x, y);
        assert(p.drop_first() =~= a.drop_first() + x);
        assert(q.drop_first() =~= b.drop_first() + y);
    }
}

/// A common prefix does not change the order of what follows it.
pub proof fn lemma_bytes_lt_common_prefix(p: Seq<u8>, x: Seq<u8>, y: Seq<u8>)
    ensures
        bytes_lt(p + x, p + y) == bytes_lt(x, y),
    decreases p.len(),
{
    if p.len() == 0 {
        assert(p + x =~= x);
        assert(p + y =~= y);
    } else {
        assert((p + x).drop_first() =~= p.drop_first() + x);
        assert((p + y).drop_first() =~= p.drop_first() + y);
        lemma_bytes_lt_common_prefix(p.drop_first(), x, y);
    }
}

/// No byte string comes before itself.
pub proof fn lemma_bytes_lt_irreflexive(a: Seq<u8>)
    ensures
        !bytes_lt(a, a),
    decreases a.len(),
{
    if a.len() > 0 {
        lemma_bytes_lt_irreflexive(a.drop_first());
    }
}

/// No code-point sequence comes before itself.
pub proof fn lemma_chars_lt_irreflexive(a: Seq<char>)
    ensures
        !chars_lt(a, a),
    decreases a.len(),
{
    if a.len() > 0 {
        lemma_chars_lt_irreflexive(a.drop_first());
    }
}

/// A common prefix can be cancelled from an equation between byte strings.
pub proof fn lemma_cancel_prefix(p: Seq<u8>, x: Seq<u8>, y: Seq<u8>)
    ensures
        (p + x == p + y) == (x == y),
{
    if p + x == p + y {
        assert((p + x).skip(p.len() as int) =~= x);
        assert((p + y).skip(p.len() as int) =~= y);
    }
}

/// Of two code points encoded in one state, the chunk of the smaller one
/// holds the smaller byte at the first position where the chunks differ,
/// and that position lies inside both chunks. The position is returned.
pub proof fn lemma_step_code_increasing(prev: char, c1: char, c2: char) -> (k: int)
    requires
        is_attractor(prev),
        (c1 as int) < (c2 as int),
    ensures
        differ_at(step_code(prev, c1), step_code(prev, c2), k),
{
    let a = step_code(prev, c1);
    let b = step_code(prev, c2);
    lemma_step_code_shape(prev, c1);
    lemma_step_code_shape(prev, c2);
    lemma_char_is_scalar(c1);
    lemma_char_is_scalar(c2);
    if (c2 as int) <= 0x20 {
        assert(a[0] == c1 as u8 && b[0] == c2 as u8);
        assert(a.take(0) =~= b.take(0));
        0
    } else if (c1 as int) <= 0x20 {
        assert(a[0] == c1 as u8);
        assert(a.take(0) =~= b.take(0));
        0
    } else {
        lemma_attractor_range(prev);
        let d1 = (c1 as int) - (prev as int);
        let d2 = (c2 as int) - (prev as int);
        assert(delta_in_range(d1) && delta_in_range(d2));
        lemma_delta_code_increasing(d1, d2)
    }
}

/// Encoding keeps the order in every state: the encodings of two texts
/// compare as the texts do, and are equal only for equal texts.
pub proof fn lemma_encode_from_keeps_order(prev: char, s1: Seq<char>, s2: Seq<char>)
    requires
        is_attractor(prev),
    ensures
        chars_lt(s1, s2) == bytes_lt(encode_from(prev, s1), encode_from(prev, s2)),
        (s1 == s2) == (encode_from(prev, s1) == encode_from(prev, s2)),
    decreases s1.len(),
{
    let e1 = encode_from(prev, s1);
    let e2 = encode_from(prev, s2);
    if s1.len() == 0 || s2.len() == 0 {
        if s1.len() > 0 {
            lemma_step_code_shape(prev, s1[0]);
            assert(e1.len() > 0);
        }
        if s2.len() > 0 {
            lemma_step_code_shape(prev, s2[0]);
            assert(e2.len() > 0);
        }
        if s1.len() == 0 && s2.len() == 0 {
            assert(s1 =~= s2);
        }
    } else {
        let c1 = s1[0];
        let c2 = s2[0];
        let p1 = step_code(prev, c1);
        let p2 = step_code(prev, c2);
        let r1 = encode_from(step_state(prev, c1), s1.drop_first());
        let r2 = encode_from(step_state(prev, c2), s2.drop_first());
        lemma_step_code_shape(prev, c1);
        lemma_step_code_shape(prev, c2);
        if c1 == c2 {
            lemma_encode_from_keeps_order(step_state(prev, c1), s1.drop_first(), s2.drop_first());
            lemma_bytes_lt_common_prefix(p1, r1, r2);
            lemma_cancel_prefix(p1, r1, r2);
            if s1.drop_first() == s2.drop_first() {
                assert(s1 =~= seq![c1] + s1.drop_first());
                assert(s2 =~= seq![c2] + s2.drop_first());
            }
        } else if (c1 as int) < (c2 as int) {
            let k = lemma_step_code_increasing(prev, c1, c2);
            lemma_differ_at_decides(p1, p2, k, r1, r2);
        } else {
            lemma_char_is_scalar(c1);
            lemma_char_is_scalar(c2);
            assert((c2 as int) < (c1 as int));
            let k = lemma_step_code_increasing(prev, c2, c1);
            lemma_differ_at_decides(p2, p1, k, r2, r1);
        }
    }
}

/// Lexicographic byte order: the encodings of two texts compare byte by
/// byte as the texts compare code point by code point.
pub proof fn lemma_encoding_keeps_order(s1: Seq<char>, s2: Seq<char>)
    ensures
        chars_order(s1, s2) == bytes_order(encoding(s1), encoding(s2)),
        chars_lt(s1, s2) == bytes_lt(encoding(s1), encoding(s2)),
{
    lemma_initial_is_attractor();
    lemma_encode_from_keeps_order(INITIAL_PREVIOUS_STATE, s1, s2);
}

/// Of two different code-point sequences one comes before the other, and
/// never both.
pub proof fn lemma_chars_lt_total(a: Seq<char>, b: Seq<char>)
    ensures
        a == b || chars_lt(a, b) || chars_lt(b, a),
        !(chars_lt(a, b) && chars_lt(b, a)),
        a == b ==> !chars_lt(a, b),
    decreases a.len(),
{
    if a.len() == 0 || b.len() == 0 {
        if a.len() == 0 && b.len() == 0 {
            assert(a =~= b);
        }
    } else {
        lemma_char_is_scalar(a[0]);
        lemma_char_is_scalar(b[0]);
        if a[0] == b[0] {
            lemma_chars_lt_total(a.drop_first(), b.drop_first());
            if a.drop_first() == b.drop_first() {
                assert(a =~= seq![a[0]] + a.drop_first());
                assert(b =~= seq![b[0]] + b.drop_first());
            }
        }
    }
    if a == b {
        lemma_chars_lt_irreflexive(a);
    }
}

/// Of two different byte strings one comes before the other, and never
/// both.
pub proof fn lemma_bytes_lt_total(a: Seq<u8>, b: Seq<u8>)
    ensures
        a == b || bytes_lt(a, b) || bytes_lt(b, a),
        !(bytes_lt(a, b) && bytes_lt(b, a)),
        a == b ==> !bytes_lt(a, b),
    decreases a.len(),
{
    if a.len() == 0 || b.len() == 0 {
        if a.len() == 0 && b.len() == 0 {
            assert(a =~= b);
        }
    } else {
        if a[0] == b[0] {
            lemma_bytes_lt_total(a.drop_first(), b.drop_first());
            if a.drop_first() == b.drop_first() {
                assert(a =~= seq![a[0]] + a.drop_first());
                assert(b =~= seq![b[0]] + b.drop_first());
            }
        }
    }
    if a == b {
        lemma_bytes_lt_irreflexive(a);
    }
}

} // verus!
