//! Index of an exception table.
//!
//! The words stay in their list (one word per line). For each sentence ender inside a word (an
//! anchor) the index holds the ender's byte position in the list and a link between the second
//! halves. Anchors are ordered by their key (the characters read from the ender back to the start
//! of the word) and then by their second half (from after the ender to the end of the word). A
//! match walks back from an ender in the input one character at a time, narrowing the range of
//! anchors whose key starts with what was read ([`key_char`]).

use vstd::prelude::*;
use vstd::utf8::*;
use vstd::string::StringSliceAdditionalSpecFns;
use crate::le::{le_u32, lemma_le_u32_at, push_u32, push_u64, u32_bytes, u64_bytes};
use crate::text::{byte_pos, char_from_u32, char_width, lemma_byte_pos_full, lemma_byte_pos_mono, lemma_byte_pos_strict, lemma_encode_utf8_concat};
use super::chars::{ender_rank, spec_ender_rank, spec_is_sentence_ender};
use super::exceptions::spec_is_matchable;
pub use super::exceptions::{MAX_WORD_CHARS, MAX_WORD_ENDERS};

verus! {

/// A word the index can use: it holds a sentence ender, stays within the limits, and can be
/// written in the word list (no line break).
pub open spec fn index_matchable(w: Seq<char>) -> bool {
    &&& spec_is_matchable(w)
    &&& !w.contains('\n')
    &&& !w.contains('\r')
}

fn index_matchable_chars(w: &[char]) -> (r: bool)
    ensures
        r == index_matchable(w@),
{
    if !crate::sentence::exceptions::is_matchable_chars(w) {
        return false;
    }
    let mut k: usize = 0;
    while k < w.len()
        invariant
            k <= w@.len(),
            forall|j: int| 0 <= j < k ==> w@[j] != '\n' && w@[j] != '\r',
        decreases w@.len() - k,
    {
        if w[k] == '\n' || w[k] == '\r' {
            proof {
                assert(w@.contains(w@[k as int]));
            }
            return false;
        }
        k = k + 1;
    }
    true
}

/// Whether the word can be used by the index: it holds a sentence ender, stays within the
/// limits, and has no line break.
pub fn is_matchable(word: &str) -> (r: bool)
    ensures
        r == index_matchable(word@),
{
    let (cs, _) = crate::text::chars_and_offsets(word);
    index_matchable_chars(cs.as_slice())
}

/// The number of a character in a head key: code point + 1, 0 for none.
pub open spec fn head_code(c: Option<char>) -> int {
    match c {
        Some(c) => c as u32 + 1,
        None => 0,
    }
}

/// The head key of an ender and the one or two characters before it: the ender's rank in 4 bits,
/// then 22 bits for each character.
pub open spec fn spec_head_key(ender: char, c1: Option<char>, c2: Option<char>) -> int {
    spec_ender_rank(ender).unwrap() * 0x1000_0000_0000 + head_code(c1) * 0x40_0000 + head_code(c2)
}

fn code_of(c: Option<char>) -> (r: u64)
    ensures
        r == head_code(c),
        r < 0x40_0000,
{
    match c {
        Some(c) => {
            let v = c as u32;
            proof {
                char_is_scalar(c);
            }
            v as u64 + 1
        },
        None => 0,
    }
}

/// The number of the first three characters of a key (the ender `ender`, the character `c1`
/// before it and the one `c2` before that), in the order of the keys.
pub fn head_key(ender: char, c1: Option<char>, c2: Option<char>) -> (r: u64)
    requires
        spec_ender_rank(ender) is Some,
    ensures
        r == spec_head_key(ender, c1, c2),
{
    let rank = match ender_rank(ender) {
        Some(x) => x,
        None => 0,
    };
    assert(rank <= 8);
    rank * 0x1000_0000_0000 + code_of(c1) * 0x40_0000 + code_of(c2)
}

/// Whether a head key has no character before the ender (the word starts with it).
pub fn head_has_no_prev(key: u64) -> (r: bool)
    ensures
        r == ((key / 0x40_0000) % 0x40_0000 == 0),
{
    assert((key >> 22u64) & 0x3F_FFFFu64 == (key / 0x40_0000) % 0x40_0000) by (bit_vector);
    (key >> 22) & 0x3F_FFFF == 0
}

/// The character of `s` that ends at byte `e` of its encoding; none at the start, inside a
/// character, past the end, or where it is a line feed.
pub open spec fn char_ending_at(s: Seq<char>, e: int) -> Option<char> {
    if exists|k: int| 1 <= k <= s.len() && byte_pos(s, k) == e {
        let k = choose|k: int| 1 <= k <= s.len() && byte_pos(s, k) == e;
        if s[k - 1] == '\n' {
            None
        } else {
            Some(s[k - 1])
        }
    } else {
        None
    }
}

/// Whether byte `e` starts a character of `s`, ends `s`, or lies past its end.
pub open spec fn boundary_or_past(s: Seq<char>, e: int) -> bool {
    e > encode_utf8(s).len() || exists|k: int| 0 <= k <= s.len() && byte_pos(s, k) == e
}

/// The first and the continuation bytes of the encoding of one character, and its decoding.
pub(crate) proof fn lemma_scalar_bytes(c: char)
    ensures
        ({
            let es = encode_scalar(c as u32);
            &&& 1 <= es.len() <= 4
            &&& es.len() == char_width(c)
            &&& !is_continuation_byte(es[0])
            &&& forall|i: int| 1 <= i < es.len() ==> is_continuation_byte(#[trigger] es[i])
            &&& es.len() == 1 ==> codepoint_width_1(es[0]) == c as u32 && es[0] < 0x80
            &&& es.len() == 2 ==> codepoint_width_2(es[0], es[1]) == c as u32
            &&& es.len() == 3 ==> codepoint_width_3(es[0], es[1], es[2]) == c as u32
            &&& es.len() == 4 ==> codepoint_width_4(es[0], es[1], es[2], es[3]) == c as u32
        }),
{
    let cs = seq![c];
    assert(cs.drop_first() =~= Seq::<char>::empty());
    assert(encode_utf8(Seq::<char>::empty()) =~= Seq::<u8>::empty());
    assert(encode_utf8(cs) =~= encode_scalar(c as u32));
    encode_utf8_first_scalar(cs);
}

fn is_continuation(b: u8) -> (r: bool)
    ensures
        r == is_continuation_byte(b),
{
    0x80 <= b && b <= 0xBF
}

/// The character of the list that ends `back` bytes before the ender at byte `ender`; `None` at
/// the start of the list or of a line (a key ends at the start of its word).
pub fn key_char(list: &str, ender: usize, back: usize) -> (r: Option<char>)
    requires
        back <= ender,
        boundary_or_past(list@, ender - back),
    ensures
        r == char_ending_at(list@, ender - back),
{
    let ghost s = list@;
    let bytes = list.as_bytes();
    let end = ender - back;
    proof {
        lemma_byte_pos_full(s);
    }
    if end == 0 || end > bytes.len() {
        proof {
            assert forall|k: int| 1 <= k <= s.len() implies byte_pos(s, k) != end by {
                lemma_byte_pos_strict(s, 0, k);
                lemma_byte_pos_mono(s, k, s.len() as int);
                assert(s.take(0) =~= Seq::<char>::empty());
                assert(encode_utf8(Seq::<char>::empty()) =~= Seq::<u8>::empty());
            };
        }
        return None;
    }
    let ghost k0 = choose|k: int| 0 <= k <= s.len() && byte_pos(s, k) == end;
    let ghost c = s[k0 - 1];
    let ghost es = encode_scalar(c as u32);
    let ghost w = es.len() as int;
    proof {
        assert(s.take(0) =~= Seq::<char>::empty());
        assert(encode_utf8(Seq::<char>::empty()) =~= Seq::<u8>::empty());
        assert(k0 >= 1);
        assert forall|k: int| 1 <= k <= s.len() && byte_pos(s, k) == end implies k == k0 by {
            if k < k0 {
                lemma_byte_pos_strict(s, k, k0);
            }
            if k > k0 {
                lemma_byte_pos_strict(s, k0, k);
            }
        };
        lemma_scalar_bytes(c);
        lemma_encode_utf8_concat(s.take(k0), s.skip(k0));
        assert(s.take(k0) + s.skip(k0) =~= s);
        lemma_encode_utf8_concat(s.take(k0 - 1), seq![c]);
        assert(s.take(k0 - 1) + seq![c] =~= s.take(k0));
        assert(seq![c].drop_first() =~= Seq::<char>::empty());
        assert(encode_utf8(seq![c]) =~= es);
        assert forall|i: int| 0 <= i < w implies bytes@[end - w + i] == #[trigger] es[i] by {
            assert(encode_utf8(s)[end - w + i] == encode_utf8(s.take(k0))[end - w + i]);
            assert(encode_utf8(s.take(k0))[end - w + i] == es[i]);
        };
    }
    let last = bytes[end - 1];
    if last < 0x80 {
        proof {
            assert(es[w - 1] == last);
            assert(w == 1);
            assert((last & 0x7Fu8) == last) by (bit_vector)
                requires
                    last < 0x80u8,
            ;
            assert(c as u32 == last);
        }
        if last == 0x0A {
            proof {
                char_u32_cast(c, 10u32);
                char_u32_cast('\n', 10u32);
            }
            return None;
        }
        let r = char_from_u32(last as u32);
        proof {
            char_is_scalar(c);
            if let Some(d) = r {
                char_u32_cast(d, last as u32);
                char_u32_cast(c, last as u32);
            }
            if c == '\n' {
                assert('\n' as u32 == 10);
            }
        }
        return r;
    }
    let mut start: usize = end - 1;
    while is_continuation(bytes[start])
        invariant
            end - w <= start <= end - 1,
            0 <= end - w,
            1 <= w <= 4,
            end <= bytes@.len(),
            bytes@ == encode_utf8(s),
            forall|i: int| 0 <= i < w ==> bytes@[end - w + i] == #[trigger] es[i],
            !is_continuation_byte(es[0]),
        decreases start,
    {
        proof {
            assert(bytes@[end - w + 0] == es[0]);
            assert(start != end - w);
        }
        start = start - 1;
    }
    proof {
        assert(start == end - w) by {
            if start > end - w {
                assert(bytes@[end - w + (start - (end - w))] == es[start - (end - w)]);
            }
        };
        assert(bytes@[end - w + 0] == es[0]);
    }
    let lead = bytes[start];
    let n = end - start;
    assert(n == w);
    proof {
        assert(bytes@[end - w + (w - 1)] == es[w - 1]);
        assert(w != 1);
    }
    let code: u32 = if n == 2 {
        proof {
            assert(bytes@[end - w + 1] == es[1]);
        }
        (((lead & 0x1F) as u32) << 6u32) | ((bytes[start + 1] & 0x3F) as u32)
    } else if n == 3 {
        proof {
            assert(bytes@[end - w + 1] == es[1]);
            assert(bytes@[end - w + 2] == es[2]);
        }
        (((lead & 0x0F) as u32) << 12u32) | (((bytes[start + 1] & 0x3F) as u32) << 6u32) | ((bytes[start + 2] & 0x3F) as u32)
    } else {
        proof {
            assert(bytes@[end - w + 1] == es[1]);
            assert(bytes@[end - w + 2] == es[2]);
            assert(bytes@[end - w + 3] == es[3]);
        }
        (((lead & 0x07) as u32) << 18u32) | (((bytes[start + 1] & 0x3F) as u32) << 12u32) | (((bytes[start + 2] & 0x3F) as u32) << 6u32) | ((bytes[start + 3] & 0x3F) as u32)
    };
    proof {
        assert(code == c as u32);
        char_is_scalar(c);
        if c == '\n' {
            assert('\n' as u32 == 10);
        }
    }
    let r = char_from_u32(code);
    proof {
        if let Some(d) = r {
            char_u32_cast(d, code);
            char_u32_cast(c, code);
        }
    }
    r
}

/// The bytes of a `u32` sequence, each little-endian.
pub open spec fn u32s_bytes(v: Seq<u32>) -> Seq<u8>
    decreases v.len(),
{
    if v.len() == 0 {
        Seq::empty()
    } else {
        u32s_bytes(v.drop_last()) + u32_bytes(v.last())
    }
}

/// The bytes of a `u64` sequence, each little-endian.
pub open spec fn u64s_bytes(v: Seq<u64>) -> Seq<u8>
    decreases v.len(),
{
    if v.len() == 0 {
        Seq::empty()
    } else {
        u64s_bytes(v.drop_last()) + u64_bytes(v.last())
    }
}

proof fn lemma_u32s_len(v: Seq<u32>)
    ensures
        u32s_bytes(v).len() == 4 * v.len(),
    decreases v.len(),
{
    if v.len() > 0 {
        lemma_u32s_len(v.drop_last());
    }
}

proof fn lemma_u64s_len(v: Seq<u64>)
    ensures
        u64s_bytes(v).len() == 8 * v.len(),
    decreases v.len(),
{
    if v.len() > 0 {
        lemma_u64s_len(v.drop_last());
    }
}

/// The mark at the start of a serialised index: `HSX3`.
pub open spec fn index_magic() -> Seq<u8> {
    seq![0x48u8, 0x53u8, 0x58u8, 0x33u8]
}

/// The bytes of an index: the mark, the word, anchor and head counts (u32 LE), then the ender
/// positions and links (u32 LE), the head keys (u64 LE) and the head starts (u32 LE).
pub open spec fn index_bytes(words: u32, enders: Seq<u32>, links: Seq<u32>, head_keys: Seq<u64>, head_starts: Seq<u32>) -> Seq<u8> {
    index_magic() + u32_bytes(words) + u32_bytes(enders.len() as u32) + u32_bytes(head_keys.len() as u32)
        + u32s_bytes(enders) + u32s_bytes(links) + u64s_bytes(head_keys) + u32s_bytes(head_starts)
}

/// The index of an exception table: per anchor the ender's byte position in the list and the link
/// to the longest second half that is a proper prefix of its own, and the ranges of anchors per
/// head key.
#[derive(Debug, Clone, PartialEq, Eq)]
pub struct Index {
    /// Byte positions of the anchors' enders in the list (in key, then second-half order)
    pub enders: Vec<u32>,
    /// Per anchor: 1 + the position of the anchor with the same key whose non-empty second half is
    /// the longest proper prefix of its own (0 for none)
    pub links: Vec<u32>,
    /// The head keys ([`head_key`]) of the anchors, ascending and each once
    pub head_keys: Vec<u64>,
    /// Where the anchors of each head key start (they end where the next start)
    pub head_starts: Vec<u32>,
    /// Number of words
    pub words: u32,
}

fn push_u32s(out: &mut Vec<u8>, v: &Vec<u32>)
    ensures
        final(out)@ == old(out)@ + u32s_bytes(v@),
{
    let mut i: usize = 0;
    while i < v.len()
        invariant
            i <= v@.len(),
            out@ == old(out)@ + u32s_bytes(v@.take(i as int)),
        decreases v@.len() - i,
    {
        proof {
            assert(v@.take(i + 1).drop_last() =~= v@.take(i as int));
        }
        push_u32(out, v[i]);
        proof {
            assert(out@ =~= old(out)@ + u32s_bytes(v@.take(i + 1)));
        }
        i = i + 1;
    }
    proof {
        assert(v@.take(v@.len() as int) =~= v@);
    }
}

fn push_u64s(out: &mut Vec<u8>, v: &Vec<u64>)
    ensures
        final(out)@ == old(out)@ + u64s_bytes(v@),
{
    let mut i: usize = 0;
    while i < v.len()
        invariant
            i <= v@.len(),
            out@ == old(out)@ + u64s_bytes(v@.take(i as int)),
        decreases v@.len() - i,
    {
        proof {
            assert(v@.take(i + 1).drop_last() =~= v@.take(i as int));
        }
        push_u64(out, v[i]);
        proof {
            assert(out@ =~= old(out)@ + u64s_bytes(v@.take(i + 1)));
        }
        i = i + 1;
    }
    proof {
        assert(v@.take(v@.len() as int) =~= v@);
    }
}

impl Index {
    /// The index as bytes ([`index_bytes`]).
    pub fn to_bytes(&self) -> (r: Vec<u8>)
        requires
            self.enders@.len() <= u32::MAX,
            self.head_keys@.len() <= u32::MAX,
        ensures
            r@ == index_bytes(self.words, self.enders@, self.links@, self.head_keys@, self.head_starts@),
    {
        let mut out: Vec<u8> = Vec::new();
        out.push(0x48);
        out.push(0x53);
        out.push(0x58);
        out.push(0x33);
        proof {
            assert(out@ =~= index_magic());
        }
        push_u32(&mut out, self.words);
        push_u32(&mut out, self.enders.len() as u32);
        push_u32(&mut out, self.head_keys.len() as u32);
        push_u32s(&mut out, &self.enders);
        push_u32s(&mut out, &self.links);
        push_u64s(&mut out, &self.head_keys);
        push_u32s(&mut out, &self.head_starts);
        out
    }
}

/// The parts of the bytes of an index (the numbers still as little-endian bytes).
pub struct IndexBytes<'a> {
    pub words: u32,
    pub enders: &'a [u8],
    pub links: &'a [u8],
    pub head_keys: &'a [u8],
    pub head_starts: &'a [u8],
}

/// Whether `b` has the shape of the bytes of an index: the mark, the three counts, and exactly the
/// bytes that they call for.
pub open spec fn index_shape(b: Seq<u8>) -> bool {
    &&& b.len() >= 16
    &&& b.subrange(0, 4) == index_magic()
    &&& 16 + 8 * le_u32(b, 8) + 12 * le_u32(b, 12) == b.len()
}

/// Splits the bytes of an index into its parts (`None` where they do not have its shape).
pub fn split_bytes(bytes: &[u8]) -> (r: Option<IndexBytes<'_>>)
    ensures
        r is Some == index_shape(bytes@),
        r matches Some(x) ==> {
            let b = bytes@;
            let c = le_u32(b, 8);
            let h = le_u32(b, 12);
            &&& x.words == le_u32(b, 4)
            &&& x.enders@ == b.subrange(16, 16 + 4 * c)
            &&& x.links@ == b.subrange(16 + 4 * c, 16 + 8 * c)
            &&& x.head_keys@ == b.subrange(16 + 8 * c, 16 + 8 * c + 8 * h)
            &&& x.head_starts@ == b.subrange(16 + 8 * c + 8 * h, b.len() as int)
        },
{
    let n = bytes.len();
    if n < 16 {
        return None;
    }
    if bytes[0] != 0x48 || bytes[1] != 0x53 || bytes[2] != 0x58 || bytes[3] != 0x33 {
        proof {
            if bytes@.subrange(0, 4) == index_magic() {
                assert(bytes@.subrange(0, 4)[0] == bytes@[0]);
                assert(bytes@.subrange(0, 4)[1] == bytes@[1]);
                assert(bytes@.subrange(0, 4)[2] == bytes@[2]);
                assert(bytes@.subrange(0, 4)[3] == bytes@[3]);
            }
        }
        return None;
    }
    proof {
        assert(bytes@.subrange(0, 4) =~= index_magic());
    }
    let words = crate::le::read_u32(bytes, 4);
    let count = crate::le::read_u32(bytes, 8) as usize;
    let heads = crate::le::read_u32(bytes, 12) as usize;
    let rest = n - 16;
    if count > rest / 8 || heads > (rest - 8 * count) / 12 || rest - 8 * count - 12 * heads != 0 {
        return None;
    }
    let a = 16 + 4 * count;
    let b = a + 4 * count;
    let c = b + 8 * heads;
    Some(IndexBytes {
        words,
        enders: vstd::slice::slice_subrange(bytes, 16, a),
        links: vstd::slice::slice_subrange(bytes, a, b),
        head_keys: vstd::slice::slice_subrange(bytes, b, c),
        head_starts: vstd::slice::slice_subrange(bytes, c, n),
    })
}

/// Reading the bytes of an index gives back its parts: the word count and the bytes of each list.
#[verifier::rlimit(60)]
pub proof fn lemma_index_bytes_roundtrip(words: u32, enders: Seq<u32>, links: Seq<u32>, head_keys: Seq<u64>, head_starts: Seq<u32>)
    requires
        links.len() == enders.len(),
        head_starts.len() == head_keys.len(),
        enders.len() <= u32::MAX,
        head_keys.len() <= u32::MAX,
    ensures
        ({
            let b = index_bytes(words, enders, links, head_keys, head_starts);
            let c = enders.len() as int;
            let h = head_keys.len() as int;
            &&& index_shape(b)
            &&& le_u32(b, 4) == words
            &&& le_u32(b, 8) == c
            &&& le_u32(b, 12) == h
            &&& b.subrange(16, 16 + 4 * c) == u32s_bytes(enders)
            &&& b.subrange(16 + 4 * c, 16 + 8 * c) == u32s_bytes(links)
            &&& b.subrange(16 + 8 * c, 16 + 8 * c + 8 * h) == u64s_bytes(head_keys)
            &&& b.subrange(16 + 8 * c + 8 * h, b.len() as int) == u32s_bytes(head_starts)
        }),
{
    let b = index_bytes(words, enders, links, head_keys, head_starts);
    let c = enders.len() as int;
    let h = head_keys.len() as int;
    lemma_u32s_len(enders);
    lemma_u32s_len(links);
    lemma_u64s_len(head_keys);
    lemma_u32s_len(head_starts);
    let ec = u32_bytes(enders.len() as u32);
    let hc = u32_bytes(head_keys.len() as u32);
    let h16 = index_magic() + u32_bytes(words) + ec + hc;
    let e = u32s_bytes(enders);
    let l = u32s_bytes(links);
    let k = u64s_bytes(head_keys);
    let t = u32s_bytes(head_starts);
    let b1 = h16 + e;
    let b2 = b1 + l;
    let b3 = b2 + k;
    assert(b == b3 + t);
    assert(h16.len() == 16);
    assert(h16.subrange(0, 4) =~= index_magic());
    assert(h16.subrange(4, 8) =~= u32_bytes(words));
    assert(h16.subrange(8, 12) =~= ec);
    assert(h16.subrange(12, 16) =~= hc);
    assert(b.subrange(0, 16) =~= h16) by {
        assert(b.subrange(0, 16) =~= b3.subrange(0, 16));
        assert(b3.subrange(0, 16) =~= b2.subrange(0, 16));
        assert(b2.subrange(0, 16) =~= b1.subrange(0, 16));
        assert(b1.subrange(0, 16) =~= h16);
    };
    assert(b.subrange(0, 4) =~= h16.subrange(0, 4));
    assert(b.subrange(4, 8) =~= h16.subrange(4, 8));
    assert(b.subrange(8, 12) =~= h16.subrange(8, 12));
    assert(b.subrange(12, 16) =~= h16.subrange(12, 16));
    lemma_le_u32_at(b, 4, words);
    lemma_le_u32_at(b, 8, enders.len() as u32);
    lemma_le_u32_at(b, 12, head_keys.len() as u32);
    assert(b.subrange(16 + 8 * c + 8 * h, b.len() as int) =~= t);
    assert(b.subrange(0, 16 + 8 * c + 8 * h) =~= b3);
    assert(b3.subrange(16 + 8 * c, 16 + 8 * c + 8 * h) =~= k);
    assert(b3.subrange(0, 16 + 8 * c) =~= b2);
    assert(b2.subrange(16 + 4 * c, 16 + 8 * c) =~= l);
    assert(b2.subrange(0, 16 + 4 * c) =~= b1);
    assert(b1.subrange(16, 16 + 4 * c) =~= e);
    assert(b.subrange(16 + 8 * c, 16 + 8 * c + 8 * h) =~= b3.subrange(16 + 8 * c, 16 + 8 * c + 8 * h));
    assert(b.subrange(16 + 4 * c, 16 + 8 * c) =~= b2.subrange(16 + 4 * c, 16 + 8 * c));
    assert(b.subrange(16, 16 + 4 * c) =~= b1.subrange(16, 16 + 4 * c));
}

/// The end of the line that starts at character `i`: the first line feed at or after `i`, or the
/// end of `s`.
pub open spec fn line_end(s: Seq<char>, i: int) -> int
    decreases s.len() - i,
{
    if i >= s.len() {
        s.len() as int
    } else if s[i] == '\n' {
        i
    } else {
        line_end(s, i + 1)
    }
}

/// The end of `s[i..e]` once the carriage returns at its end are trimmed.
pub open spec fn trimmed_end(s: Seq<char>, i: int, e: int) -> int
    decreases e - i,
{
    if e > i && s[e - 1] == '\r' {
        trimmed_end(s, i, e - 1)
    } else {
        e
    }
}

/// Whether the word `w` of a line counts: not a comment or blank line (where those are skipped),
/// and matchable.
pub open spec fn word_taken(w: Seq<char>, comments: bool) -> bool {
    !(comments && (w.len() == 0 || w[0] == '#')) && index_matchable(w)
}

/// The positions of the sentence enders among the characters `i..j` of `s`.
pub open spec fn enders_in(s: Seq<char>, i: int, j: int) -> Seq<int>
    decreases j - i,
{
    if j <= i {
        Seq::empty()
    } else if spec_is_sentence_ender(s[j - 1]) {
        enders_in(s, i, j - 1).push(j - 1)
    } else {
        enders_in(s, i, j - 1)
    }
}

/// The anchors (character positions of enders in counted words) of the lines from character `i`
/// on, and the number of counted words.
pub open spec fn anchors_from(s: Seq<char>, comments: bool, i: int) -> (Seq<int>, int)
    decreases s.len() + 1 - i,
{
    if i >= s.len() || i < 0 {
        (Seq::empty(), 0)
    } else {
        let e = line_end(s, i);
        if e < i || e > s.len() {
            (Seq::empty(), 0)
        } else {
            let we = trimmed_end(s, i, e);
            let rest = anchors_from(s, comments, e + 1);
            if word_taken(s.subrange(i, we), comments) {
                (enders_in(s, i, we) + rest.0, rest.1 + 1)
            } else {
                rest
            }
        }
    }
}

proof fn lemma_line_end(s: Seq<char>, i: int)
    requires
        0 <= i <= s.len(),
    ensures
        i <= line_end(s, i) <= s.len(),
        line_end(s, i) < s.len() ==> s[line_end(s, i)] == '\n',
        forall|k: int| i <= k < line_end(s, i) ==> s[k] != '\n',
    decreases s.len() - i,
{
    if i < s.len() && s[i] != '\n' {
        lemma_line_end(s, i + 1);
    }
}

proof fn lemma_trimmed_end(s: Seq<char>, i: int, e: int)
    requires
        i <= e,
    ensures
        i <= trimmed_end(s, i, e) <= e,
    decreases e - i,
{
    if e > i && s[e - 1] == '\r' {
        lemma_trimmed_end(s, i, e - 1);
    }
}

/// The sentence enders among `cs[i..j]`, appended to `out`.
fn push_enders(cs: &Vec<char>, i: usize, j: usize, out: &mut Vec<usize>)
    requires
        i <= j <= cs@.len(),
    ensures
        final(out)@.map_values(|x: usize| x as int) == old(out)@.map_values(|x: usize| x as int) + enders_in(cs@, i as int, j as int),
        final(out)@.len() <= old(out)@.len() + j - i,
        forall|k: int| 0 <= k < old(out)@.len() ==> final(out)@[k] == old(out)@[k],
        forall|k: int| old(out)@.len() <= k < final(out)@.len() ==> final(out)@[k] < j,
        forall|k: int| old(out)@.len() <= k < final(out)@.len() ==> spec_is_sentence_ender(cs@[final(out)@[k] as int]),
{
    let mut k: usize = i;
    while k < j
        invariant
            i <= k <= j <= cs@.len(),
            out@.map_values(|x: usize| x as int) == old(out)@.map_values(|x: usize| x as int) + enders_in(cs@, i as int, k as int),
            out@.len() <= old(out)@.len() + k - i,
            out@.len() >= old(out)@.len(),
            forall|q: int| 0 <= q < old(out)@.len() ==> out@[q] == old(out)@[q],
            forall|q: int| old(out)@.len() <= q < out@.len() ==> out@[q] < k,
            forall|q: int| old(out)@.len() <= q < out@.len() ==> spec_is_sentence_ender(cs@[out@[q] as int]),
        decreases j - k,
    {
        let ghost prev = out@.map_values(|x: usize| x as int);
        if crate::sentence::chars::is_sentence_ender(cs[k]) {
            out.push(k);
            proof {
                assert(out@.map_values(|x: usize| x as int) =~= prev.push(k as int));
            }
            proof {
                assert(out@.map_values(|x: usize| x as int) =~= old(out)@.map_values(|x: usize| x as int) + enders_in(cs@, i as int, k + 1));
            }
        } else {
            proof {
                assert(out@.map_values(|x: usize| x as int) =~= old(out)@.map_values(|x: usize| x as int) + enders_in(cs@, i as int, k + 1));
            }
        }
        k = k + 1;
    }
}

/// The anchors of the counted words of the list `cs`, and the number of those words.
fn collect_anchors(cs: &Vec<char>, comments: bool) -> (r: (Vec<usize>, usize))
    ensures
        r.0@.map_values(|x: usize| x as int) == anchors_from(cs@, comments, 0).0,
        r.1 == anchors_from(cs@, comments, 0).1,
        r.1 <= cs@.len(),
        r.0@.len() <= cs@.len(),
        forall|k: int| 0 <= k < r.0@.len() ==> r.0@[k] < cs@.len(),
        forall|k: int| 0 <= k < r.0@.len() ==> spec_is_sentence_ender(cs@[r.0@[k] as int]),
{
    let ghost s = cs@;
    let n = cs.len();
    let mut anchors: Vec<usize> = Vec::new();
    let mut words: usize = 0;
    let mut i: usize = 0;
    proof {
        assert(anchors@.map_values(|x: usize| x as int) + anchors_from(s, comments, 0).0 =~= anchors_from(s, comments, 0).0);
    }
    while i < n
        invariant
            n == s.len(),
            s == cs@,
            i <= n,
            words <= i,
            words <= n,
            anchors@.len() <= i,
            forall|k: int| 0 <= k < anchors@.len() ==> anchors@[k] < n,
            forall|k: int| 0 <= k < anchors@.len() ==> spec_is_sentence_ender(s[anchors@[k] as int]),
            anchors@.map_values(|x: usize| x as int) + anchors_from(s, comments, i as int).0 == anchors_from(s, comments, 0).0,
            words + anchors_from(s, comments, i as int).1 == anchors_from(s, comments, 0).1,
        decreases n + 1 - i,
    {
        let mut e: usize = i;
        while e < n && cs[e] != '\n'
            invariant
                i <= e <= n,
                n == s.len(),
                s == cs@,
                line_end(s, i as int) == line_end(s, e as int),
            decreases n - e,
        {
            e = e + 1;
        }
        let mut we: usize = e;
        while we > i && cs[we - 1] == '\r'
            invariant
                i <= we <= e,
                e <= n,
                n == s.len(),
                s == cs@,
                trimmed_end(s, i as int, e as int) == trimmed_end(s, i as int, we as int),
            decreases we,
        {
            we = we - 1;
        }
        let w = vstd::slice::slice_subrange(cs.as_slice(), i, we);
        let skip = comments && (we == i || cs[i] == '#');
        proof {
            assert(w@ =~= s.subrange(i as int, we as int));
            assert(line_end(s, i as int) == e);
        }
        let ghost before = anchors@.map_values(|x: usize| x as int);
        let ghost rest = anchors_from(s, comments, e + 1);
        if !skip && index_matchable_chars(w) {
            proof {
                if we == i {
                    assert(w@.len() == 0);
                }
            }
            push_enders(cs, i, we, &mut anchors);
            words = words + 1;
            proof {
                assert(before + enders_in(s, i as int, we as int) + rest.0 =~= before + (enders_in(s, i as int, we as int) + rest.0));
            }
        }
        i = if e < n {
            e + 1
        } else {
            n
        };
    }
    proof {
        assert(anchors@.map_values(|x: usize| x as int) + Seq::<int>::empty() =~= anchors@.map_values(|x: usize| x as int));
    }
    (anchors, words)
}

/// Lexicographic comparison of character sequences by code point: -1, 0 or 1.
pub open spec fn lex_order(x: Seq<char>, y: Seq<char>) -> int
    decreases x.len(),
{
    if x.len() == 0 && y.len() == 0 {
        0
    } else if x.len() == 0 {
        -1
    } else if y.len() == 0 {
        1
    } else if (x[0] as u32) < (y[0] as u32) {
        -1
    } else if (x[0] as u32) > (y[0] as u32) {
        1
    } else {
        lex_order(x.drop_first(), y.drop_first())
    }
}

proof fn lemma_lex_antisym(x: Seq<char>, y: Seq<char>)
    ensures
        lex_order(x, y) == -lex_order(y, x),
        lex_order(x, y) == 0 ==> x == y,
        -1 <= lex_order(x, y) <= 1,
    decreases x.len(),
{
    if x.len() > 0 && y.len() > 0 && x[0] as u32 == y[0] as u32 {
        lemma_lex_antisym(x.drop_first(), y.drop_first());
        char_u32_cast(x[0], x[0] as u32);
        char_u32_cast(y[0], y[0] as u32);
        if lex_order(x, y) == 0 {
            assert(x =~= seq![x[0]] + x.drop_first());
            assert(y =~= seq![y[0]] + y.drop_first());
        }
    }
}

proof fn lemma_lex_trans(x: Seq<char>, y: Seq<char>, z: Seq<char>)
    requires
        lex_order(x, y) <= 0,
        lex_order(y, z) <= 0,
    ensures
        lex_order(x, z) <= 0,
    decreases x.len(),
{
    if x.len() > 0 && y.len() > 0 && z.len() > 0 && x[0] as u32 == y[0] as u32 && y[0] as u32 == z[0] as u32 {
        lemma_lex_trans(x.drop_first(), y.drop_first(), z.drop_first());
    }
}

/// The character position where the line holding character `a` starts.
pub open spec fn line_start(s: Seq<char>, a: int) -> int
    decreases a,
{
    if a <= 0 {
        0
    } else if s[a - 1] == '\n' {
        a
    } else {
        line_start(s, a - 1)
    }
}

proof fn lemma_line_start(s: Seq<char>, a: int)
    requires
        0 <= a <= s.len(),
    ensures
        0 <= line_start(s, a) <= a,
    decreases a,
{
    if a > 0 && s[a - 1] != '\n' {
        lemma_line_start(s, a - 1);
    }
}

/// The key of the anchor at character `a`: the ender, then the characters before it back to the
/// start of its line.
pub open spec fn anchor_key(s: Seq<char>, a: int) -> Seq<char> {
    Seq::new((a - line_start(s, a) + 1) as nat, |j: int| s[a - j])
}

/// Where the second half of the anchor at `a` ends: the end of its line, carriage returns
/// trimmed.
pub open spec fn tail_end(s: Seq<char>, a: int) -> int {
    trimmed_end(s, a + 1, line_end(s, a + 1))
}

/// The second half of the anchor at `a`: from after the ender to the end of its word.
pub open spec fn anchor_tail(s: Seq<char>, a: int) -> Seq<char> {
    s.subrange(a + 1, tail_end(s, a))
}

/// The order of anchors: by key, then by second half.
pub open spec fn anchor_order(s: Seq<char>, a: int, b: int) -> int {
    if lex_order(anchor_key(s, a), anchor_key(s, b)) != 0 {
        lex_order(anchor_key(s, a), anchor_key(s, b))
    } else {
        lex_order(anchor_tail(s, a), anchor_tail(s, b))
    }
}

proof fn lemma_anchor_antisym(s: Seq<char>, a: int, b: int)
    ensures
        anchor_order(s, a, b) == -anchor_order(s, b, a),
{
    lemma_lex_antisym(anchor_key(s, a), anchor_key(s, b));
    lemma_lex_antisym(anchor_tail(s, a), anchor_tail(s, b));
}

proof fn lemma_anchor_trans(s: Seq<char>, a: int, b: int, c: int)
    requires
        anchor_order(s, a, b) <= 0,
        anchor_order(s, b, c) <= 0,
    ensures
        anchor_order(s, a, c) <= 0,
{
    let (ka, kb, kc) = (anchor_key(s, a), anchor_key(s, b), anchor_key(s, c));
    lemma_lex_antisym(ka, kb);
    lemma_lex_antisym(kb, kc);
    lemma_lex_antisym(ka, kc);
    lemma_lex_trans(ka, kb, kc);
    if lex_order(ka, kc) == 0 {
        lemma_lex_antisym(kb, ka);
        if lex_order(ka, kb) != 0 {
            lemma_lex_trans(kb, kc, ka);
        }
        lemma_lex_trans(anchor_tail(s, a), anchor_tail(s, b), anchor_tail(s, c));
    }
}

/// An anchor with where its line starts and where its second half ends.
pub open spec fn record_ok(s: Seq<char>, r: (usize, usize, usize)) -> bool {
    &&& r.0 < s.len()
    &&& r.1 == line_start(s, r.0 as int)
    &&& r.2 == tail_end(s, r.0 as int)
    &&& r.1 <= r.0 < r.2 + 0 + 1 <= s.len() + 1
    &&& r.0 + 1 <= r.2 <= s.len()
}

fn anchor_record(cs: &Vec<char>, a: usize) -> (r: (usize, usize, usize))
    requires
        a < cs@.len(),
    ensures
        r.0 == a,
        record_ok(cs@, r),
{
    let ghost s = cs@;
    let n = cs.len();
    let mut ls: usize = a;
    while ls > 0 && cs[ls - 1] != '\n'
        invariant
            ls <= a < n,
            n == s.len(),
            s == cs@,
            line_start(s, a as int) == line_start(s, ls as int),
        decreases ls,
    {
        ls = ls - 1;
    }
    let mut e: usize = a + 1;
    while e < n && cs[e] != '\n'
        invariant
            a + 1 <= e <= n,
            n == s.len(),
            s == cs@,
            line_end(s, a + 1) == line_end(s, e as int),
        decreases n - e,
    {
        e = e + 1;
    }
    let mut te: usize = e;
    while te > a + 1 && cs[te - 1] == '\r'
        invariant
            a + 1 <= te <= e <= n,
            n == s.len(),
            s == cs@,
            trimmed_end(s, a + 1, e as int) == trimmed_end(s, a + 1, te as int),
        decreases te,
    {
        te = te - 1;
    }
    proof {
        assert(line_end(s, e as int) == e);
    }
    (a, ls, te)
}

fn char_order(x: char, y: char) -> (r: i8)
    ensures
        r == (if (x as u32) < (y as u32) {
            -1int
        } else if (x as u32) > (y as u32) {
            1int
        } else {
            0int
        }),
{
    let (u, v) = (x as u32, y as u32);
    if u < v {
        -1
    } else if u > v {
        1
    } else {
        0
    }
}

proof fn lemma_lex_step(x: Seq<char>, y: Seq<char>, j: int)
    requires
        0 <= j < x.len(),
        j < y.len(),
        x[j] as u32 == y[j] as u32,
    ensures
        lex_order(x.skip(j), y.skip(j)) == lex_order(x.skip(j + 1), y.skip(j + 1)),
{
    assert(x.skip(j).drop_first() =~= x.skip(j + 1));
    assert(y.skip(j).drop_first() =~= y.skip(j + 1));
}

/// Compares the keys of two anchors.
fn order_keys(cs: &Vec<char>, ra: (usize, usize, usize), rb: (usize, usize, usize)) -> (r: i8)
    requires
        record_ok(cs@, ra),
        record_ok(cs@, rb),
    ensures
        r == lex_order(anchor_key(cs@, ra.0 as int), anchor_key(cs@, rb.0 as int)),
{
    let ghost s = cs@;
    let ghost ka = anchor_key(s, ra.0 as int);
    let ghost kb = anchor_key(s, rb.0 as int);
    let la = ra.0 - ra.1 + 1;
    let lb = rb.0 - rb.1 + 1;
    let mut j: usize = 0;
    proof {
        assert(ka.skip(0) =~= ka);
        assert(kb.skip(0) =~= kb);
    }
    loop
        invariant
            s == cs@,
            record_ok(s, ra),
            record_ok(s, rb),
            la == ka.len(),
            lb == kb.len(),
            ka == anchor_key(s, ra.0 as int),
            kb == anchor_key(s, rb.0 as int),
            j <= la,
            j <= lb,
            lex_order(ka, kb) == lex_order(ka.skip(j as int), kb.skip(j as int)),
        decreases la - j,
    {
        if j == la || j == lb {
            proof {
                if j == la {
                    assert(ka.skip(j as int).len() == 0);
                }
                if j == lb {
                    assert(kb.skip(j as int).len() == 0);
                }
            }
            return if j == la && j == lb {
                0
            } else if j == la {
                -1
            } else {
                1
            };
        }
        let c = char_order(cs[ra.0 - j], cs[rb.0 - j]);
        proof {
            assert(ka[j as int] == s[ra.0 - j]);
            assert(kb[j as int] == s[rb.0 - j]);
            assert(ka.skip(j as int)[0] == ka[j as int]);
            assert(kb.skip(j as int)[0] == kb[j as int]);
        }
        if c != 0 {
            return c;
        }
        proof {
            lemma_lex_step(ka, kb, j as int);
        }
        j = j + 1;
    }
}

/// Compares the second halves of two anchors.
fn order_tails(cs: &Vec<char>, ra: (usize, usize, usize), rb: (usize, usize, usize)) -> (r: i8)
    requires
        record_ok(cs@, ra),
        record_ok(cs@, rb),
    ensures
        r == lex_order(anchor_tail(cs@, ra.0 as int), anchor_tail(cs@, rb.0 as int)),
{
    let ghost s = cs@;
    let ghost ta = anchor_tail(s, ra.0 as int);
    let ghost tb = anchor_tail(s, rb.0 as int);
    let la = ra.2 - (ra.0 + 1);
    let lb = rb.2 - (rb.0 + 1);
    let mut j: usize = 0;
    proof {
        assert(ta.skip(0) =~= ta);
        assert(tb.skip(0) =~= tb);
    }
    loop
        invariant
            s == cs@,
            record_ok(s, ra),
            record_ok(s, rb),
            la == ta.len(),
            lb == tb.len(),
            ta == anchor_tail(s, ra.0 as int),
            tb == anchor_tail(s, rb.0 as int),
            j <= la,
            j <= lb,
            lex_order(ta, tb) == lex_order(ta.skip(j as int), tb.skip(j as int)),
        decreases la - j,
    {
        if j == la || j == lb {
            proof {
                if j == la {
                    assert(ta.skip(j as int).len() == 0);
                }
                if j == lb {
                    assert(tb.skip(j as int).len() == 0);
                }
            }
            return if j == la && j == lb {
                0
            } else if j == la {
                -1
            } else {
                1
            };
        }
        let c = char_order(cs[ra.0 + 1 + j], cs[rb.0 + 1 + j]);
        proof {
            assert(ta.skip(j as int)[0] == ta[j as int]);
            assert(tb.skip(j as int)[0] == tb[j as int]);
        }
        if c != 0 {
            return c;
        }
        proof {
            lemma_lex_step(ta, tb, j as int);
        }
        j = j + 1;
    }
}

fn order_anchors(cs: &Vec<char>, ra: (usize, usize, usize), rb: (usize, usize, usize)) -> (r: i8)
    requires
        record_ok(cs@, ra),
        record_ok(cs@, rb),
    ensures
        r == anchor_order(cs@, ra.0 as int, rb.0 as int),
{
    let k = order_keys(cs, ra, rb);
    if k != 0 {
        k
    } else {
        order_tails(cs, ra, rb)
    }
}

/// Whether the anchors of `v` (by their records) are in anchor order.
pub open spec fn records_sorted(s: Seq<char>, v: Seq<(usize, usize, usize)>) -> bool {
    forall|i: int, j: int| 0 <= i < j < v.len() ==> anchor_order(s, v[i].0 as int, v[j].0 as int) <= 0
}

/// The records of the anchors `anchors`, in anchor order.
fn sort_anchors(cs: &Vec<char>, anchors: &Vec<usize>) -> (r: Vec<(usize, usize, usize)>)
    requires
        forall|i: int| 0 <= i < anchors@.len() ==> anchors@[i] < cs@.len(),
        forall|i: int| 0 <= i < anchors@.len() ==> spec_is_sentence_ender(cs@[anchors@[i] as int]),
    ensures
        forall|i: int| 0 <= i < r@.len() ==> spec_is_sentence_ender(cs@[(#[trigger] r@[i]).0 as int]),
        r@.map_values(|x: (usize, usize, usize)| x.0 as int).to_multiset() == anchors@.map_values(|x: usize| x as int).to_multiset(),
        records_sorted(cs@, r@),
        forall|i: int| 0 <= i < r@.len() ==> record_ok(cs@, #[trigger] r@[i]),
        r@.len() == anchors@.len(),
{
    broadcast use vstd::seq_lib::group_to_multiset_ensures;

    let ghost s = cs@;
    let mut r: Vec<(usize, usize, usize)> = Vec::new();
    let mut i: usize = 0;
    proof {
        assert(r@.map_values(|x: (usize, usize, usize)| x.0 as int) =~= Seq::<int>::empty());
        assert(anchors@.map_values(|x: usize| x as int).take(0) =~= Seq::<int>::empty());
    }
    while i < anchors.len()
        invariant
            s == cs@,
            i <= anchors@.len(),
            r@.len() == i,
            forall|k: int| 0 <= k < anchors@.len() ==> anchors@[k] < s.len(),
            forall|k: int| 0 <= k < anchors@.len() ==> spec_is_sentence_ender(s[anchors@[k] as int]),
            forall|k: int| 0 <= k < r@.len() ==> spec_is_sentence_ender(s[(#[trigger] r@[k]).0 as int]),
            r@.map_values(|x: (usize, usize, usize)| x.0 as int).to_multiset() == anchors@.map_values(|x: usize| x as int).take(i as int).to_multiset(),
            records_sorted(s, r@),
            forall|k: int| 0 <= k < r@.len() ==> record_ok(s, #[trigger] r@[k]),
        decreases anchors@.len() - i,
    {
        let x = anchor_record(cs, anchors[i]);
        let mut p: usize = r.len();
        while p > 0 && order_anchors(cs, r[p - 1], x) > 0
            invariant
                s == cs@,
                p <= r@.len(),
                record_ok(s, x),
                forall|k: int| 0 <= k < r@.len() ==> record_ok(s, #[trigger] r@[k]),
                forall|k: int| 0 <= k < r@.len() ==> spec_is_sentence_ender(s[(#[trigger] r@[k]).0 as int]),
                forall|k: int| p <= k < r@.len() ==> anchor_order(s, r@[k].0 as int, x.0 as int) > 0,
            decreases p,
        {
            p = p - 1;
        }
        let ghost old_r = r@;
        r.insert(p, x);
        proof {
            assert forall|a: int, b: int| 0 <= a < b < r@.len() implies anchor_order(s, r@[a].0 as int, r@[b].0 as int) <= 0 by {
                if a < p as int && b == p as int {
                    if a < p - 1 {
                        lemma_anchor_trans(s, old_r[a].0 as int, old_r[p - 1].0 as int, x.0 as int);
                    }
                } else if a == p as int {
                    lemma_anchor_antisym(s, old_r[b - 1].0 as int, x.0 as int);
                }
            };
            let am = anchors@.map_values(|x: usize| x as int);
            assert(r@.map_values(|x: (usize, usize, usize)| x.0 as int) =~= old_r.map_values(|x: (usize, usize, usize)| x.0 as int).insert(p as int, x.0 as int));
            assert(am.take(i + 1) =~= am.take(i as int).push(am[i as int]));
            vstd::seq_lib::to_multiset_insert(old_r.map_values(|x: (usize, usize, usize)| x.0 as int), p as int, x.0 as int);
            vstd::seq_lib::to_multiset_build(am.take(i as int), am[i as int]);
        }
        i = i + 1;
    }
    proof {
        assert(anchors@.map_values(|x: usize| x as int).take(anchors@.len() as int) =~= anchors@.map_values(|x: usize| x as int));
    }
    r
}

/// Whether `x` is a prefix of `y`.
pub open spec fn is_prefix_of(x: Seq<char>, y: Seq<char>) -> bool {
    x.len() <= y.len() && y.subrange(0, x.len() as int) == x
}

/// The link of anchor `i` of the ordered anchors `p`, looking back from `j`: 1 + the first
/// position at or before `j` (among the anchors with `i`'s key right before it) whose second half
/// is not empty and is a prefix of `i`'s; 0 for none.
pub open spec fn link_from(s: Seq<char>, p: Seq<int>, i: int, j: int) -> int
    decreases j + 1,
{
    if j < 0 {
        0
    } else if anchor_key(s, p[j]) != anchor_key(s, p[i]) {
        0
    } else if anchor_tail(s, p[j]).len() > 0 && is_prefix_of(anchor_tail(s, p[j]), anchor_tail(s, p[i])) {
        j + 1
    } else {
        link_from(s, p, i, j - 1)
    }
}

/// The link of anchor `i` (0 where its second half is empty).
pub open spec fn link_of(s: Seq<char>, p: Seq<int>, i: int) -> int {
    if anchor_tail(s, p[i]).len() == 0 {
        0
    } else {
        link_from(s, p, i, i - 1)
    }
}

/// The head key of the anchor at `a`: its ender and the next two characters of its key.
pub open spec fn head_of(s: Seq<char>, a: int) -> int {
    let k = anchor_key(s, a);
    spec_head_key(
        s[a],
        if k.len() > 1 {
            Some(k[1])
        } else {
            None
        },
        if k.len() > 2 {
            Some(k[2])
        } else {
            None
        },
    )
}

/// The distinct head keys of the first `n` of `hs` (runs of equal keys kept once) and where each
/// run starts.
pub open spec fn heads_upto(hs: Seq<int>, n: int) -> (Seq<int>, Seq<int>)
    decreases n,
{
    if n <= 0 {
        (Seq::empty(), Seq::empty())
    } else {
        let prev = heads_upto(hs, n - 1);
        if prev.0.len() > 0 && prev.0.last() == hs[n - 1] {
            prev
        } else {
            (prev.0.push(hs[n - 1]), prev.1.push(n - 1))
        }
    }
}

proof fn lemma_heads_len(hs: Seq<int>, n: int)
    ensures
        heads_upto(hs, n).0.len() == heads_upto(hs, n).1.len(),
    decreases n,
{
    if n > 0 {
        lemma_heads_len(hs, n - 1);
    }
}

/// Whether the second half of `ra` is a prefix of that of `rb`.
fn tail_is_prefix(cs: &Vec<char>, ra: (usize, usize, usize), rb: (usize, usize, usize)) -> (r: bool)
    requires
        record_ok(cs@, ra),
        record_ok(cs@, rb),
    ensures
        r == is_prefix_of(anchor_tail(cs@, ra.0 as int), anchor_tail(cs@, rb.0 as int)),
{
    let ghost ta = anchor_tail(cs@, ra.0 as int);
    let ghost tb = anchor_tail(cs@, rb.0 as int);
    let la = ra.2 - (ra.0 + 1);
    let lb = rb.2 - (rb.0 + 1);
    if la > lb {
        return false;
    }
    let mut j: usize = 0;
    while j < la
        invariant
            la == ta.len(),
            lb == tb.len(),
            la <= lb,
            j <= la,
            record_ok(cs@, ra),
            record_ok(cs@, rb),
            ta == anchor_tail(cs@, ra.0 as int),
            tb == anchor_tail(cs@, rb.0 as int),
            forall|q: int| 0 <= q < j ==> ta[q] == tb[q],
        decreases la - j,
    {
        if cs[ra.0 + 1 + j] != cs[rb.0 + 1 + j] {
            proof {
                assert(tb.subrange(0, la as int)[j as int] != ta[j as int]);
            }
            return false;
        }
        j = j + 1;
    }
    proof {
        assert(tb.subrange(0, la as int) =~= ta);
    }
    true
}

/// The link of anchor `i` of the ordered records.
fn link_at(cs: &Vec<char>, recs: &Vec<(usize, usize, usize)>, i: usize) -> (r: usize)
    requires
        i < recs@.len(),
        forall|k: int| 0 <= k < recs@.len() ==> record_ok(cs@, #[trigger] recs@[k]),
    ensures
        r == link_of(cs@, recs@.map_values(|x: (usize, usize, usize)| x.0 as int), i as int),
        r <= i,
{
    let ghost s = cs@;
    let ghost p = recs@.map_values(|x: (usize, usize, usize)| x.0 as int);
    let x = recs[i];
    if x.2 == x.0 + 1 {
        return 0;
    }
    let mut j: usize = i;
    let mut link: usize = 0;
    let mut done = false;
    while j > 0
        invariant
            j <= i < recs@.len(),
            x == recs@[i as int],
            p == recs@.map_values(|x: (usize, usize, usize)| x.0 as int),
            s == cs@,
            forall|k: int| 0 <= k < recs@.len() ==> record_ok(s, #[trigger] recs@[k]),
            anchor_tail(s, p[i as int]).len() > 0,
            !done ==> link_of(s, p, i as int) == link_from(s, p, i as int, j - 1),
            done ==> link_of(s, p, i as int) == link && j == 0,
            !done ==> link == 0,
            link <= i,
        decreases j,
    {
        let q = recs[j - 1];
        let k = order_keys(cs, q, x);
        proof {
            lemma_lex_antisym(anchor_key(s, q.0 as int), anchor_key(s, x.0 as int));
            if anchor_key(s, q.0 as int) == anchor_key(s, x.0 as int) {
                lemma_lex_antisym(anchor_key(s, x.0 as int), anchor_key(s, x.0 as int));
            }
        }
        if k != 0 {
            done = true;
            link = 0;
            j = 0;
        } else if q.2 > q.0 + 1 && tail_is_prefix(cs, q, x) {
            done = true;
            link = j;
            j = 0;
        } else {
            j = j - 1;
        }
    }
    link
}

/// The head key of the anchor of record `x`.
fn record_head(cs: &Vec<char>, x: (usize, usize, usize)) -> (r: u64)
    requires
        record_ok(cs@, x),
        spec_ender_rank(cs@[x.0 as int]) is Some,
    ensures
        r == head_of(cs@, x.0 as int),
{
    let c1 = if x.0 > x.1 {
        Some(cs[x.0 - 1])
    } else {
        None
    };
    let c2 = if x.0 > x.1 + 1 {
        Some(cs[x.0 - 2])
    } else {
        None
    };
    head_key(cs[x.0], c1, c2)
}

/// Characters are no more than the bytes of their encoding.
proof fn lemma_chars_le_bytes(s: Seq<char>, k: int)
    requires
        0 <= k <= s.len(),
    ensures
        k <= byte_pos(s, k),
    decreases k,
{
    if k > 0 {
        lemma_chars_le_bytes(s, k - 1);
        crate::text::lemma_byte_pos_step(s, k - 1);
        lemma_scalar_bytes(s[k - 1]);
    } else {
        assert(s.take(0) =~= Seq::<char>::empty());
        assert(encode_utf8(Seq::<char>::empty()) =~= Seq::<u8>::empty());
    }
}

/// What an index built from the list `s` holds for the anchors `p` in the order found.
pub open spec fn index_over(s: Seq<char>, p: Seq<int>, ix: Index) -> bool {
    &&& ix.enders@.len() == p.len()
    &&& ix.links@.len() == p.len()
    &&& forall|i: int| 0 <= i < p.len() ==> ix.enders@[i] == byte_pos(s, #[trigger] p[i])
    &&& forall|i: int| 0 <= i < p.len() ==> ix.links@[i] == link_of(s, p, i)
    &&& ix.head_keys@.map_values(|x: u64| x as int) == heads_upto(p.map_values(|a: int| head_of(s, a)), p.len() as int).0
    &&& ix.head_starts@.map_values(|x: u32| x as int) == heads_upto(p.map_values(|a: int| head_of(s, a)), p.len() as int).1
}

impl Index {
    /// Builds the index of a list of words (one per line). With `comments`, lines that are empty or
    /// start with `#` are no words; lines whose word cannot be matched ([`is_matchable`]) are
    /// skipped. The anchors come in key order, then in the order of their second halves.
    pub fn build(list: &str, comments: bool) -> (r: Index)
        requires
            list.spec_bytes().len() <= u32::MAX,
            forall|k: int| 0 <= k < list@.len() && spec_is_sentence_ender(#[trigger] list@[k]) ==> spec_ender_rank(list@[k]) is Some,
        ensures
            r.words == anchors_from(list@, comments, 0).1,
            exists|p: Seq<int>|
                p.to_multiset() == anchors_from(list@, comments, 0).0.to_multiset()
                && (forall|i: int, j: int| 0 <= i < j < p.len() ==> anchor_order(list@, p[i], p[j]) <= 0)
                && index_over(list@, p, r),
    {
        let ghost s = list@;
        let (cs, offs) = crate::text::chars_and_offsets(list);
        proof {
            lemma_chars_le_bytes(s, s.len() as int);
            lemma_byte_pos_full(s);
        }
        let (anchors, words) = collect_anchors(&cs, comments);
        let recs = sort_anchors(&cs, &anchors);
        let ghost p = recs@.map_values(|x: (usize, usize, usize)| x.0 as int);
        let ghost hs = p.map_values(|a: int| head_of(s, a));
        let n = recs.len();
        let mut enders: Vec<u32> = Vec::new();
        let mut links: Vec<u32> = Vec::new();
        let mut head_keys: Vec<u64> = Vec::new();
        let mut head_starts: Vec<u32> = Vec::new();
        let mut i: usize = 0;
        proof {
            assert(head_keys@.map_values(|x: u64| x as int) =~= heads_upto(hs, 0).0);
            assert(head_starts@.map_values(|x: u32| x as int) =~= heads_upto(hs, 0).1);
        }
        while i < n
            invariant
                s == cs@,
                n == recs@.len(),
                n <= s.len(),
                s.len() <= u32::MAX,
                offs@.len() == s.len() + 1,
                forall|k: int| 0 <= k <= s.len() ==> #[trigger] offs@[k] == byte_pos(s, k),
                byte_pos(s, s.len() as int) <= u32::MAX,
                forall|k: int| 0 <= k < s.len() && spec_is_sentence_ender(#[trigger] s[k]) ==> spec_ender_rank(s[k]) is Some,
                forall|k: int| 0 <= k < recs@.len() ==> record_ok(s, #[trigger] recs@[k]),
                forall|k: int| 0 <= k < recs@.len() ==> spec_is_sentence_ender(s[(#[trigger] recs@[k]).0 as int]),
                p == recs@.map_values(|x: (usize, usize, usize)| x.0 as int),
                hs == p.map_values(|a: int| head_of(s, a)),
                i <= n,
                enders@.len() == i,
                links@.len() == i,
                forall|k: int| 0 <= k < i ==> enders@[k] == byte_pos(s, #[trigger] p[k]),
                forall|k: int| 0 <= k < i ==> links@[k] == link_of(s, p, k),
                head_keys@.map_values(|x: u64| x as int) == heads_upto(hs, i as int).0,
                head_starts@.map_values(|x: u32| x as int) == heads_upto(hs, i as int).1,
            decreases n - i,
        {
            let x = recs[i];
            proof {
                lemma_byte_pos_mono(s, x.0 as int, s.len() as int);
            }
            enders.push(offs[x.0] as u32);
            let l = link_at(&cs, &recs, i);
            links.push(l as u32);
            let h = record_head(&cs, x);
            let ghost hk = head_keys@;
            let ghost hst = head_starts@;
            proof {
                lemma_heads_len(hs, i as int);
                assert(hs[i as int] == h);
            }
            if head_keys.len() == 0 || head_keys[head_keys.len() - 1] != h {
                head_keys.push(h);
                head_starts.push(i as u32);
                proof {
                    assert(head_keys@.map_values(|x: u64| x as int) =~= hk.map_values(|x: u64| x as int).push(h as int));
                    assert(head_starts@.map_values(|x: u32| x as int) =~= hst.map_values(|x: u32| x as int).push(i as int));
                }
            } else {
                proof {
                    assert(hk.map_values(|x: u64| x as int).last() == hk.last() as int);
                }
            }
            i = i + 1;
        }
        let r = Index { enders, links, head_keys, head_starts, words: words as u32 };
        proof {
            assert(anchors@.map_values(|x: usize| x as int) == anchors_from(s, comments, 0).0);
            assert(index_over(s, p, r));
        }
        r
    }
}

/// The byte offset of every character is a character boundary of the encoding.
proof fn lemma_byte_pos_boundary(s: Seq<char>, k: int)
    requires
        0 <= k <= s.len(),
    ensures
        is_char_boundary(encode_utf8(s), byte_pos(s, k)),
    decreases s.len(),
{
    let b = encode_utf8(s);
    encode_utf8_valid_utf8(s);
    if k == 0 {
        assert(s.take(0) =~= Seq::<char>::empty());
        assert(encode_utf8(Seq::<char>::empty()) =~= Seq::<u8>::empty());
    } else {
        encode_utf8_first_scalar(s);
        let t = s.drop_first();
        assert(pop_first_scalar(b) =~= encode_utf8(t));
        lemma_byte_pos_boundary(t, k - 1);
        assert(s.take(k).drop_first() =~= t.take(k - 1));
        assert(s.take(k)[0] == s[0]);
        lemma_byte_pos_full(s);
        lemma_byte_pos_mono(s, k, s.len() as int);
    }
}

/// The second half of the anchor whose ender is at byte `ender`: from after the ender to the end
/// of its word (the end of the line, carriage returns trimmed).
pub fn tail(list: &str, ender: usize) -> (r: &str)
    requires
        exists|a: int| 0 <= a < list@.len() && byte_pos(list@, a) == ender,
    ensures
        forall|a: int| 0 <= a < list@.len() && byte_pos(list@, a) == ender ==> r@ == anchor_tail(list@, a),
{
    let ghost s = list@;
    let (cs, offs) = crate::text::chars_and_offsets(list);
    let ghost a0 = choose|a: int| 0 <= a < s.len() && byte_pos(s, a) == ender;
    let n = cs.len();
    let mut a: usize = 0;
    while offs[a] < ender
        invariant
            s == cs@,
            n == s.len(),
            offs@.len() == s.len() + 1,
            forall|k: int| 0 <= k <= s.len() ==> #[trigger] offs@[k] == byte_pos(s, k),
            0 <= a0 < s.len(),
            byte_pos(s, a0) == ender,
            a <= a0,
        decreases a0 - a,
    {
        proof {
            if a == a0 {
                assert(false);
            }
            lemma_byte_pos_mono(s, a + 1, a0);
        }
        a = a + 1;
        proof {
            if a > a0 {
                assert(false);
            }
        }
    }
    proof {
        if a < a0 {
            lemma_byte_pos_strict(s, a as int, a0);
        }
        assert(a == a0);
        assert forall|b: int| 0 <= b < s.len() && byte_pos(s, b) == ender implies b == a0 by {
            if b < a0 {
                lemma_byte_pos_strict(s, b, a0);
            }
            if b > a0 {
                lemma_byte_pos_strict(s, a0, b);
            }
        };
    }
    let x = anchor_record(&cs, a);
    let from = offs[x.0 + 1];
    let to = offs[x.2];
    proof {
        lemma_byte_pos_boundary(s, x.0 + 1);
        lemma_byte_pos_boundary(s, x.2 as int);
        lemma_byte_pos_mono(s, x.0 + 1, x.2 as int);
        lemma_byte_pos_full(s);
        lemma_byte_pos_mono(s, x.2 as int, s.len() as int);
    }
    let (head, _) = list.split_at(to);
    proof {
        let h = s.subrange(0, x.2 as int);
        assert(s.take(x.2 as int) =~= h);
        lemma_encode_utf8_concat(h, s.skip(x.2 as int));
        assert(h + s.skip(x.2 as int) =~= s);
        assert(head.spec_bytes() =~= encode_utf8(h));
        encode_utf8_decode_utf8(h);
        encode_utf8_decode_utf8(head@);
        assert(head@ == h);
        assert(h.take(x.0 + 1) =~= s.take(x.0 + 1));
        assert(byte_pos(h, x.0 + 1) == from);
        lemma_byte_pos_boundary(h, x.0 + 1);
    }
    let (_, rest) = head.split_at(from);
    proof {
        let h = s.subrange(0, x.2 as int);
        let t = s.subrange(x.0 + 1, x.2 as int);
        assert(h =~= h.take(x.0 + 1) + t);
        lemma_encode_utf8_concat(h.take(x.0 + 1), t);
        encode_utf8_decode_utf8(t);
        encode_utf8_decode_utf8(rest@);
        assert(rest.spec_bytes() =~= encode_utf8(t));
    }
    rest
}

} // verus!
