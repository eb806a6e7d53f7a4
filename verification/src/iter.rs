//! Sequence adapters around the codec.

use crate::delta_encoding::decode_from;
use crate::delta_encoding::decode_results_from;
use crate::delta_encoding::decode_step;
use crate::delta_encoding::decoding;
use crate::delta_encoding::encode_from;
use crate::delta_encoding::encoding;
use crate::delta_encoding::is_attractor;
use crate::delta_encoding::lemma_decode_step_taken;
use crate::delta_encoding::lemma_encode_from_concat;
use crate::delta_encoding::lemma_initial_is_attractor;
use crate::delta_encoding::state_after;
use crate::delta_encoding::step_code;
use crate::delta_encoding::step_state;
use crate::delta_encoding::DeltaCoder;
use crate::delta_encoding::INITIAL_PREVIOUS_STATE;
use vstd::prelude::*;

verus! {

/// The bytes that encode one code point: the first `count` entries of
/// `bytes`, with `count` between 1 and 4.
#[derive(Debug, Clone, Copy)]
pub struct EncodedChunk {
    pub bytes: [u8; 4],
    pub count: usize,
}

impl View for EncodedChunk {
    type V = Seq<u8>;

    /// The bytes that the chunk stands for.
    open spec fn view(&self) -> Seq<u8> {
        self.bytes@.subrange(0, self.count as int)
    }
}

impl EncodedChunk {
    /// A chunk holds between one and four bytes.
    pub open spec fn wf(&self) -> bool {
        1 <= self.count <= 4
    }

    /// The chunk that holds the single byte `lead`.
    pub fn new_single(lead: u8) -> (r: Self)
        ensures
            r.wf(),
            r.count == 1,
            r.bytes@ == seq![lead, 0u8, 0u8, 0u8],
            r@ == seq![lead],
    {
        let r = Self { bytes: [lead, 0, 0, 0], count: 1 };
        assert(r@ =~= seq![lead]);
        assert(r.bytes@ =~= seq![lead, 0u8, 0u8, 0u8]);
        r
    }

    /// The bytes of the chunk as a slice.
    pub fn as_slice(&self) -> (r: &[u8])
        requires
            self.count <= 4,
        ensures
            r@ == self@,
    {
        let s: &[u8] = self.bytes.as_slice();
        vstd::slice::slice_subrange(s, 0, self.count)
    }
}

/// The ways decoding a byte stream can fail.
#[derive(Debug, Clone, Copy, PartialEq, Eq)]
pub enum DecodeError {
    /// The lead byte announces more bytes than the input holds.
    TruncatedInput,
    /// A byte in trail position is one of the excluded bytes.
    TrailByteOutOfRange(u8),
    /// The decoded delta, added to the previous state, is no Unicode scalar.
    CharDeltaOutOfRange(char, i32),
}

/// An encoding starts with the chunk of its first code point, and no
/// chunk is empty.
proof fn lemma_encode_from_unfold(prev: char, s: Seq<char>)
    requires
        s.len() > 0,
    ensures
        encode_from(prev, s) == step_code(prev, s[0]) + encode_from(
            step_state(prev, s[0]),
            s.drop_first(),
        ),
        1 <= step_code(prev, s[0]).len() <= 4,
        encode_from(prev, s).len() > 0,
{
}

/// Yields the chunk of each code point of a text in turn.
pub struct EncodedChunkIter {
    input: Vec<char>,
    pos: usize,
    coder: DeltaCoder,
}

impl EncodedChunkIter {
    /// The code points that are still to be encoded.
    pub closed spec fn pending(&self) -> Seq<char> {
        if self.pos <= self.input@.len() {
            self.input@.skip(self.pos as int)
        } else {
            Seq::<char>::empty()
        }
    }

    /// The state in which the next code point is encoded.
    pub closed spec fn state(&self) -> char {
        self.coder.prev()
    }

    /// An iterator over the chunks of `input`, starting in the initial
    /// state.
    pub fn new(input: Vec<char>) -> (r: Self)
        ensures
            r.pending() == input@,
            r.state() == INITIAL_PREVIOUS_STATE,
    {
        let r = Self { input: input, pos: 0, coder: DeltaCoder::new() };
        assert(r.pending() =~= input@);
        r
    }

    /// The chunk of the next code point, or `None` at the end of the text.
    pub fn next(&mut self) -> (r: Option<EncodedChunk>)
        ensures
            match r {
                None => {
                    &&& old(self).pending().len() == 0
                    &&& final(self).pending() == old(self).pending()
                    &&& final(self).state() == old(self).state()
                },
                Some(chunk) => {
                    &&& old(self).pending().len() > 0
                    &&& chunk.wf()
                    &&& chunk@ == step_code(old(self).state(), old(self).pending()[0])
                    &&& final(self).pending() == old(self).pending().drop_first()
                    &&& final(self).state() == step_state(
                        old(self).state(),
                        old(self).pending()[0],
                    )
                },
            },
    {
        if self.pos < self.input.len() {
            let ch: char = self.input[self.pos];
            self.pos = self.pos + 1;
            let chunk = self.coder.encode_char(ch);
            assert(self.pending() =~= old(self).pending().drop_first());
            Some(chunk)
        } else {
            None
        }
    }
}

/// Yields the bytes of a text's encoding one by one, draining each chunk
/// before it asks for the next.
pub struct DrainEncodedChunkIter {
    inner: EncodedChunkIter,
    drain: Option<EncodedChunk>,
    index: usize,
}

impl DrainEncodedChunkIter {
    /// The chunk in hand, if there is one, is not yet drained.
    pub closed spec fn wf(&self) -> bool {
        match self.drain {
            None => true,
            Some(enc) => enc.wf() && self.index < enc.count,
        }
    }

    /// The bytes of the chunk in hand that are still to come.
    closed spec fn in_hand(&self) -> Seq<u8> {
        match self.drain {
            None => Seq::<u8>::empty(),
            Some(enc) => enc@.skip(self.index as int),
        }
    }

    /// The bytes that are still to come: the rest of the chunk in hand,
    /// then the encoding of the code points that follow.
    pub closed spec fn remaining(&self) -> Seq<u8> {
        self.in_hand() + encode_from(self.inner.state(), self.inner.pending())
    }

    /// An iterator over the bytes of the chunks that `inner` yields.
    pub fn new(inner: EncodedChunkIter) -> (r: Self)
        ensures
            r.wf(),
            r.remaining() == encode_from(inner.state(), inner.pending()),
    {
        let r = Self { inner: inner, drain: None, index: 0 };
        assert(r.remaining() =~= encode_from(inner.state(), inner.pending()));
        r
    }

    /// The next byte of the encoding, or `None` at its end.
    pub fn next(&mut self) -> (r: Option<u8>)
        requires
            old(self).wf(),
        ensures
            final(self).wf(),
            match r {
                None => old(self).remaining().len() == 0 && final(self).remaining().len() == 0,
                Some(b) => {
                    &&& old(self).remaining().len() > 0
                    &&& b == old(self).remaining()[0]
                    &&& final(self).remaining() == old(self).remaining().drop_first()
                },
            },
    {
        if self.drain.is_none() {
            let ghost before = self.inner;
            let next = self.inner.next();
            proof {
                if before.pending().len() > 0 {
                    lemma_encode_from_unfold(before.state(), before.pending());
                }
            }
            if let Some(enc) = next {
                self.drain = Some(enc);
                self.index = 0;
                assert(self.remaining() =~= old(self).remaining());
            }
        }
        let (ret, reset): (Option<u8>, bool) = match &self.drain {
            None => (None, false),
            Some(enc) => {
                let ret = Some(enc.bytes[self.index]);
                (ret, self.index + 1 == enc.count)
            },
        };
        let ghost mid = *self;
        if ret.is_some() {
            if reset {
                self.drain = None;
                self.index = 0;
            } else {
                self.index = self.index + 1;
            }
            assert(self.remaining() =~= mid.remaining().drop_first());
        }
        ret
    }

    /// All the bytes that are still to come.
    pub fn collect(self) -> (v: Vec<u8>)
        requires
            self.wf(),
        ensures
            v@ == self.remaining(),
    {
        let mut it = self;
        let mut v: Vec<u8> = Vec::new();
        loop
            invariant
                it.wf(),
                v@ + it.remaining() == self.remaining(),
            ensures
                v@ == self.remaining(),
            decreases it.remaining().len(),
        {
            let ghost before = it.remaining();
            match it.next() {
                None => {
                    assert(v@ + it.remaining() =~= v@);
                    break ;
                },
                Some(b) => {
                    v.push(b);
                    assert(v@ + it.remaining() =~= (v@.drop_last() + before));
                },
            }
        }
        v
    }
}

/// The byte iterator that `encode_bocu1` returns.
pub type EncodeIter = DrainEncodedChunkIter;

/// The code points of a `str`, in order.
pub fn str_chars(s: &str) -> (v: Vec<char>)
    ensures
        v@ == s@,
{
    let mut v: Vec<char> = Vec::new();
    for c in it: s.chars()
        invariant
            v@ == it.seq().take(it.index() as int),
            it.seq() == s@,
    {
        v.push(c);
        assert(it.seq().take(it.index() + 1) =~= it.seq().take(it.index() as int).push(c));
    }
    assert(v@ =~= s@);
    v
}

/// Texts that can be encoded.
pub trait EncodeBOCU1 {
    /// The code points of the text.
    spec fn code_points(&self) -> Seq<char>;

    /// An iterator over the bytes of the text's encoding.
    fn encode_bocu1(&self) -> (r: EncodeIter)
        ensures
            r.wf(),
            r.remaining() == encoding(self.code_points()),
    ;
}

impl<'a> EncodeBOCU1 for &'a str {
    open spec fn code_points(&self) -> Seq<char> {
        self@
    }

    fn encode_bocu1(&self) -> (r: EncodeIter) {
        let inner = EncodedChunkIter::new(str_chars(*self));
        DrainEncodedChunkIter::new(inner)
    }
}

impl<'a> EncodeBOCU1 for &'a [char] {
    open spec fn code_points(&self) -> Seq<char> {
        self@
    }

    fn encode_bocu1(&self) -> (r: EncodeIter) {
        let inner = EncodedChunkIter::new(vstd::slice::slice_to_vec(*self));
        DrainEncodedChunkIter::new(inner)
    }
}

/// Appends the encoding of `s` to `out` and returns the number of bytes
/// appended.
pub fn write_encoded_chars(s: &str, out: &mut Vec<u8>) -> (total: usize)
    ensures
        final(out)@ == old(out)@ + encoding(s@),
        total == encoding(s@).len(),
{
    let chars = str_chars(s);
    let mut total: usize = 0;
    let mut e = DeltaCoder::new();
    let mut i: usize = 0;
    while i < chars.len()
        invariant
            i <= chars@.len(),
            chars@ == s@,
            is_attractor(e.prev()),
            out@ == old(out)@ + encode_from(INITIAL_PREVIOUS_STATE, chars@.take(i as int)),
            e.prev() == state_after(INITIAL_PREVIOUS_STATE, chars@.take(i as int)),
            total == encode_from(INITIAL_PREVIOUS_STATE, chars@.take(i as int)).len(),
        decreases chars@.len() - i,
    {
        let c: char = chars[i];
        let enc = e.encode_char(c);
        let ghost head = chars@.take(i as int);
        proof {
            lemma_initial_is_attractor();
            lemma_encode_from_concat(INITIAL_PREVIOUS_STATE, head, seq![c]);
            assert(chars@.take(i + 1) =~= head + seq![c]);
            assert(seq![c].drop_first() =~= Seq::<char>::empty());
            assert(encode_from(e.prev(), Seq::<char>::empty()) =~= Seq::<u8>::empty());
            assert(encode_from(state_after(INITIAL_PREVIOUS_STATE, head), seq![c]) =~= enc@);
            reveal_with_fuel(state_after, 2);
            assert(state_after(state_after(INITIAL_PREVIOUS_STATE, head), seq![c]) == e.prev());
        }
        let bytes = enc.as_slice();
        let mut k: usize = 0;
        while k < bytes.len()
            invariant
                k <= bytes@.len(),
                bytes@ == enc@,
                enc.wf(),
                out@ == old(out)@ + encode_from(INITIAL_PREVIOUS_STATE, head) + enc@.take(
                    k as int,
                ),
                total == encode_from(INITIAL_PREVIOUS_STATE, head).len() + k,
            decreases bytes@.len() - k,
        {
            out.push(bytes[k]);
            assert(total + 1 <= out.len());
            total = total + 1;
            k = k + 1;
            assert(enc@.take(k as int) =~= enc@.take(k - 1).push(enc@[k - 1]));
        }
        assert(enc@.take(k as int) =~= enc@);
        i = i + 1;
    }
    assert(chars@.take(i as int) =~= s@);
    total
}

/// Yields a result for each decoding step on a byte stream: the code
/// point, or the error. After an error it goes on one byte further.
pub struct DecodeResultIter<'a> {
    state: DeltaCoder,
    slice: &'a [u8],
}

impl<'a> DecodeResultIter<'a> {
    /// The results that are still to come.
    pub closed spec fn results(&self) -> Seq<Result<char, DecodeError>> {
        decode_results_from(self.state.prev(), self.slice@)
    }

    /// An iterator over the results of decoding `s` from the initial
    /// state.
    pub fn new(s: &'a [u8]) -> (r: DecodeResultIter<'a>)
        ensures
            r.results() == decode_results_from(INITIAL_PREVIOUS_STATE, s@),
    {
        DecodeResultIter { state: DeltaCoder::new(), slice: s }
    }

    /// The next result, or `None` at the end of the stream.
    pub fn next(&mut self) -> (r: Option<Result<char, DecodeError>>)
        ensures
            match r {
                None => old(self).results().len() == 0 && final(self).results().len() == 0,
                Some(x) => {
                    &&& old(self).results().len() > 0
                    &&& x == old(self).results()[0]
                    &&& final(self).results() == old(self).results().drop_first()
                },
            },
    {
        loop
            invariant
                self.results() == old(self).results(),
            decreases self.slice@.len(),
        {
            if self.slice.is_empty() {
                return None;
            }
            let ghost before = *self;
            match self.state.decode_char(self.slice) {
                Ok((None, rest)) => {
                    self.slice = rest;
                },
                Ok((Some(c), rest)) => {
                    self.slice = rest;
                    assert(self.results() =~= before.results().drop_first());
                    return Some(Ok(c));
                },
                Err(e) => {
                    self.slice = vstd::slice::slice_subrange(self.slice, 1, self.slice.len());
                    assert(self.results() =~= before.results().drop_first());
                    return Some(Err(e));
                },
            }
        }
    }

    /// Gives up the rest of the stream: no result is to come.
    fn halt(&mut self)
        ensures
            final(self).results().len() == 0,
    {
        self.slice = vstd::slice::slice_subrange(self.slice, 0, 0);
    }

    /// All the results that are still to come.
    pub fn collect(self) -> (v: Vec<Result<char, DecodeError>>)
        ensures
            v@ == self.results(),
    {
        let mut it = self;
        let mut v: Vec<Result<char, DecodeError>> = Vec::new();
        loop
            invariant
                v@ + it.results() == self.results(),
            ensures
                v@ == self.results(),
            decreases it.results().len(),
        {
            let ghost before = it.results();
            match it.next() {
                None => {
                    assert(v@ + it.results() =~= v@);
                    break ;
                },
                Some(x) => {
                    v.push(x);
                    assert(v@ + it.results() =~= (v@.drop_last() + before));
                },
            }
        }
        v
    }
}

/// The code points at the head of a sequence of results, up to the first
/// error.
pub open spec fn ok_prefix(rs: Seq<Result<char, DecodeError>>) -> Seq<char>
    decreases rs.len(),
{
    if rs.len() == 0 {
        Seq::<char>::empty()
    } else {
        match rs[0] {
            Err(_) => Seq::<char>::empty(),
            Ok(c) => seq![c] + ok_prefix(rs.drop_first()),
        }
    }
}

/// Decoding up to the first error yields the code points in front of the
/// first error among the results.
pub proof fn lemma_decode_from_is_ok_prefix(prev: char, b: Seq<u8>)
    requires
        is_attractor(prev),
    ensures
        decode_from(prev, b) == ok_prefix(decode_results_from(prev, b)),
    decreases b.len(),
{
    if b.len() > 0 {
        match decode_step(prev, b) {
            Err(e) => {
                let rs = decode_results_from(prev, b);
                assert(rs[0] == Err::<char, DecodeError>(e));
            },
            Ok(step) => {
                lemma_decode_step_taken(prev, b);
                lemma_decode_from_is_ok_prefix(step.state, b.skip(step.taken));
                let rest = decode_results_from(step.state, b.skip(step.taken));
                match step.item {
                    Some(c) => {
                        let rs = seq![Ok::<char, DecodeError>(c)] + rest;
                        assert(rs.drop_first() =~= rest);
                    },
                    None => {},
                }
            },
        }
    }
}

/// Yields the code points that a byte stream decodes to, and stops at the
/// first error.
pub struct DecodeIter<'a> {
    inner: DecodeResultIter<'a>,
}

impl<'a> DecodeIter<'a> {
    /// The code points that are still to come.
    pub closed spec fn items(&self) -> Seq<char> {
        ok_prefix(self.inner.results())
    }

    /// An iterator over the code points that `s` decodes to.
    pub fn new(s: &'a [u8]) -> (r: DecodeIter<'a>)
        ensures
            r.items() == decoding(s@),
    {
        proof {
            lemma_initial_is_attractor();
            lemma_decode_from_is_ok_prefix(INITIAL_PREVIOUS_STATE, s@);
        }
        DecodeIter { inner: DecodeResultIter::new(s) }
    }

    /// The next code point, or `None` at the end of the stream or at its
    /// first error.
    pub fn next(&mut self) -> (r: Option<char>)
        ensures
            match r {
                None => old(self).items().len() == 0 && final(self).items().len() == 0,
                Some(c) => {
                    &&& old(self).items().len() > 0
                    &&& c == old(self).items()[0]
                    &&& final(self).items() == old(self).items().drop_first()
                },
            },
    {
        match self.inner.next() {
            None => None,
            Some(Err(_)) => {
                self.inner.halt();
                None
            },
            Some(Ok(c)) => {
                assert(old(self).items().drop_first() =~= self.items());
                Some(c)
            },
        }
    }

    /// All the code points that are still to come.
    pub fn collect(self) -> (v: Vec<char>)
        ensures
            v@ == self.items(),
    {
        let mut it = self;
        let mut v: Vec<char> = Vec::new();
        loop
            invariant
                v@ + it.items() == self.items(),
            ensures
                v@ == self.items(),
            decreases it.items().len(),
        {
            let ghost before = it.items();
            match it.next() {
                None => {
                    assert(v@ + it.items() =~= v@);
                    break ;
                },
                Some(c) => {
                    v.push(c);
                    assert(v@ + it.items() =~= (v@.drop_last() + before));
                },
            }
        }
        v
    }
}

/// Byte streams that can be decoded.
pub trait DecodeBOCU1 {
    /// The bytes of the stream.
    spec fn encoded_bytes(&self) -> Seq<u8>;

    /// An iterator over the code points that the stream decodes to, up to
    /// its first error.
    fn decode_bocu1(&self) -> (r: DecodeIter)
        ensures
            r.items() == decoding(self.encoded_bytes()),
    ;
}

impl<'a> DecodeBOCU1 for &'a [u8] {
    open spec fn encoded_bytes(&self) -> Seq<u8> {
        self@
    }

    fn decode_bocu1(&self) -> (r: DecodeIter) {
        DecodeIter::new(*self)
    }
}

} // verus!
