//! Small string tables (parts of speech, conjugation types and forms, category names).
//!
//! Layout: `count: u32`, `offsets: u32 × (count + 1)` (the first 0, never decreasing, the last the
//! body length), then the body (UTF-8).

use vstd::prelude::*;
use vstd::utf8::*;
use vstd::string::StringSliceAdditionalSpecFns;
use crate::le::{le_u32, u32_bytes, push_u32, read_u32, lemma_le_u32_at, lemma_u32_bytes};
use crate::text::{concat, utf8_string};
use super::DictError;

verus! {

broadcast use vstd::string::group_string_axioms;

/// The UTF-8 bytes of the first `j` strings, one after another.
pub open spec fn encoded_upto(ss: Seq<Seq<char>>, j: int) -> Seq<u8>
    decreases j,
{
    if j <= 0 {
        Seq::empty()
    } else {
        encoded_upto(ss, j - 1) + encode_utf8(ss[j - 1])
    }
}

/// The first `j` offsets (each the body length before that string).
pub open spec fn offsets_upto(ss: Seq<Seq<char>>, j: int) -> Seq<u8>
    decreases j,
{
    if j <= 0 {
        Seq::empty()
    } else {
        offsets_upto(ss, j - 1) + u32_bytes(encoded_upto(ss, j - 1).len() as u32)
    }
}

/// The bytes of a table of the strings `ss`.
pub open spec fn strtab_bytes(ss: Seq<Seq<char>>) -> Seq<u8> {
    u32_bytes(ss.len() as u32) + offsets_upto(ss, (ss.len() + 1) as int) + encoded_upto(ss, ss.len() as int)
}

pub open spec fn strtab_count(b: Seq<u8>) -> int {
    le_u32(b, 0)
}

pub open spec fn strtab_offset(b: Seq<u8>, i: int) -> int {
    le_u32(b, 4 + 4 * i)
}

pub open spec fn strtab_body_start(b: Seq<u8>) -> int {
    4 + 4 * (strtab_count(b) + 1)
}

/// The bytes of string `i` of a table.
pub open spec fn strtab_piece(b: Seq<u8>, i: int) -> Seq<u8> {
    b.subrange(strtab_body_start(b) + strtab_offset(b, i), strtab_body_start(b) + strtab_offset(b, i + 1))
}

/// `b` is a well-formed table of at most `max_count` strings.
pub open spec fn strtab_valid(b: Seq<u8>, max_count: int) -> bool {
    &&& b.len() >= 4
    &&& strtab_count(b) <= max_count
    &&& strtab_body_start(b) <= b.len()
    &&& strtab_offset(b, 0) == 0
    &&& strtab_offset(b, strtab_count(b)) == b.len() - strtab_body_start(b)
    &&& forall|i: int| 0 <= i < strtab_count(b) ==> #[trigger] strtab_offset(b, i) <= strtab_offset(b, i + 1)
    &&& forall|i: int| 0 <= i < strtab_count(b) ==> valid_utf8(#[trigger] strtab_piece(b, i))
}

/// Collects the strings of a table in order of first appearance, without repeats.
pub struct StringTableBuilder {
    strings: Vec<String>,
}

impl View for StringTableBuilder {
    type V = Seq<Seq<char>>;

    closed spec fn view(&self) -> Seq<Seq<char>> {
        Seq::new(self.strings@.len(), |i: int| self.strings@[i]@)
    }
}

impl StringTableBuilder {
    /// Each string is there once.
    pub closed spec fn wf(&self) -> bool {
        forall|i: int, j: int|
            0 <= i < j < self.strings@.len() ==> self.strings@[i]@ != self.strings@[j]@
    }

    /// The index of `s`, adding it at the end if it is new.
    pub fn intern(&mut self, s: &str) -> (id: u32)
        requires
            old(self).wf(),
            old(self)@.len() < u32::MAX,
        ensures
            final(self).wf(),
            old(self)@.contains(s@) ==> final(self)@ == old(self)@ && id < old(self)@.len() && old(self)@[id as int] == s@,
            !old(self)@.contains(s@) ==> final(self)@ == old(self)@.push(s@) && id == old(self)@.len(),
    {
        let owned = s.to_owned();
        let mut i: usize = 0;
        while i < self.strings.len()
            invariant
                i <= self.strings@.len(),
                owned@ == s@,
                self.wf(),
                self@ == old(self)@,
                self.strings@.len() < u32::MAX,
                forall|j: int| 0 <= j < i ==> self.strings@[j]@ != s@,
            decreases self.strings@.len() - i,
        {
            if self.strings[i] == owned {
                proof {
                    assert(self@[i as int] == s@);
                }
                return i as u32;
            }
            i = i + 1;
        }
        proof {
            assert(!self@.contains(s@)) by {
                if self@.contains(s@) {
                    let j = choose|j: int| 0 <= j < self@.len() && self@[j] == s@;
                    assert(self.strings@[j]@ == s@);
                }
            }
        }
        let id = self.strings.len() as u32;
        let ghost before = self@;
        self.strings.push(owned);
        proof {
            assert(self@ =~= before.push(s@));
            assert forall|a: int, b: int|
                0 <= a < b < self.strings@.len() implies self.strings@[a]@ != self.strings@[b]@ by {
                if b == self.strings@.len() - 1 {
                    assert(self.strings@[a]@ == before[a]);
                } else {
                    assert(self.strings@[a]@ == before[a]);
                    assert(self.strings@[b]@ == before[b]);
                }
            }
        }
        id
    }

    /// Number of distinct strings.
    pub fn len(&self) -> (n: usize)
        ensures
            n == self@.len(),
    {
        self.strings.len()
    }

    /// The table in its file layout.
    pub fn to_bytes(&self) -> (r: Vec<u8>)
        requires
            self@.len() < u32::MAX,
            encoded_upto(self@, self@.len() as int).len() <= u32::MAX,
        ensures
            r@ == strtab_bytes(self@),
    {
        let ghost ss = self@;
        let n = self.strings.len();
        let mut out: Vec<u8> = Vec::new();
        push_u32(&mut out, n as u32);
        let mut offset: u32 = 0;
        push_u32(&mut out, 0);
        proof {
            assert(encoded_upto(ss, 0) =~= Seq::<u8>::empty());
            assert(offsets_upto(ss, 0) =~= Seq::<u8>::empty());
            assert(offsets_upto(ss, 1) =~= u32_bytes(0));
            assert(out@ =~= u32_bytes(n as u32) + offsets_upto(ss, 1));
        }
        let mut i: usize = 0;
        while i < n
            invariant
                n == ss.len(),
                ss == self@,
                i <= n,
                offset == encoded_upto(ss, i as int).len(),
                encoded_upto(ss, n as int).len() <= u32::MAX,
                out@ == u32_bytes(n as u32) + offsets_upto(ss, i + 1),
            decreases n - i,
        {
            let bytes = self.strings[i].as_str().as_bytes();
            proof {
                lemma_encoded_mono(ss, i + 1, n as int);
                assert(self.strings@[i as int]@ == ss[i as int]);
            }
            offset = offset + bytes.len() as u32;
            push_u32(&mut out, offset);
            proof {
                assert(out@ =~= u32_bytes(n as u32) + offsets_upto(ss, i + 2));
            }
            i = i + 1;
        }
        let mut i: usize = 0;
        while i < n
            invariant
                n == ss.len(),
                ss == self@,
                i <= n,
                out@ == u32_bytes(n as u32) + offsets_upto(ss, n + 1) + encoded_upto(ss, i as int),
            decreases n - i,
        {
            let bytes = self.strings[i].as_str().as_bytes();
            proof {
                assert(self.strings@[i as int]@ == ss[i as int]);
            }
            let ghost before = out@;
            let mut j: usize = 0;
            while j < bytes.len()
                invariant
                    j <= bytes@.len(),
                    out@ == before + bytes@.take(j as int),
                decreases bytes@.len() - j,
            {
                out.push(bytes[j]);
                proof {
                    assert(out@ =~= before + bytes@.take(j + 1));
                }
                j = j + 1;
            }
            proof {
                assert(bytes@.take(bytes@.len() as int) =~= bytes@);
                assert(out@ =~= u32_bytes(n as u32) + offsets_upto(ss, n + 1) + encoded_upto(ss, i + 1));
            }
            i = i + 1;
        }
        out
    }
}

impl Default for StringTableBuilder {
    fn default() -> (b: Self)
        ensures
            b@ == Seq::<Seq<char>>::empty(),
            b.wf(),
    {
        let b = StringTableBuilder { strings: Vec::new() };
        assert(b@ =~= Seq::<Seq<char>>::empty());
        b
    }
}

proof fn lemma_encoded_mono(ss: Seq<Seq<char>>, i: int, j: int)
    requires
        0 <= i <= j,
    ensures
        encoded_upto(ss, i).len() <= encoded_upto(ss, j).len(),
        encoded_upto(ss, j).subrange(0, encoded_upto(ss, i).len() as int) == encoded_upto(ss, i),
    decreases j - i,
{
    if i < j {
        lemma_encoded_mono(ss, i, j - 1);
        let e = encoded_upto(ss, j);
        let p = encoded_upto(ss, j - 1);
        assert(e.subrange(0, encoded_upto(ss, i).len() as int) =~= p.subrange(0, encoded_upto(ss, i).len() as int));
    }
}

proof fn lemma_offsets(ss: Seq<Seq<char>>, j: int, i: int)
    requires
        0 <= i < j,
    ensures
        offsets_upto(ss, j).len() == 4 * j,
        offsets_upto(ss, j).subrange(4 * i, 4 * i + 4) == u32_bytes(encoded_upto(ss, i).len() as u32),
    decreases j,
{
    lemma_u32_bytes(encoded_upto(ss, j - 1).len() as u32);
    if i < j - 1 {
        lemma_offsets(ss, j - 1, i);
        let o = offsets_upto(ss, j);
        let p = offsets_upto(ss, j - 1);
        assert(o.subrange(4 * i, 4 * i + 4) =~= p.subrange(4 * i, 4 * i + 4));
    } else {
        if j - 1 > 0 {
            lemma_offsets(ss, j - 1, 0);
        } else {
            assert(offsets_upto(ss, 0).len() == 0);
        }
        let o = offsets_upto(ss, j);
        assert(o.subrange(4 * i, 4 * i + 4) =~= u32_bytes(encoded_upto(ss, i).len() as u32));
    }
}

proof fn lemma_piece(ss: Seq<Seq<char>>, j: int, i: int)
    requires
        0 <= i < j,
    ensures
        encoded_upto(ss, i + 1).len() == encoded_upto(ss, i).len() + encode_utf8(ss[i]).len(),
        encoded_upto(ss, j).subrange(encoded_upto(ss, i).len() as int, encoded_upto(ss, i + 1).len() as int)
            == encode_utf8(ss[i]),
    decreases j,
{
    if i < j - 1 {
        lemma_piece(ss, j - 1, i);
        lemma_encoded_mono(ss, i + 1, j - 1);
        let e = encoded_upto(ss, j);
        let p = encoded_upto(ss, j - 1);
        assert(e.subrange(encoded_upto(ss, i).len() as int, encoded_upto(ss, i + 1).len() as int)
            =~= p.subrange(encoded_upto(ss, i).len() as int, encoded_upto(ss, i + 1).len() as int));
    } else {
        let e = encoded_upto(ss, j);
        assert(e.subrange(encoded_upto(ss, i).len() as int, encoded_upto(ss, i + 1).len() as int)
            =~= encode_utf8(ss[i]));
    }
}

/// A table written from strings reads back as the same strings, in the same order.
pub proof fn lemma_strtab_roundtrip(ss: Seq<Seq<char>>, max_count: int)
    requires
        ss.len() <= max_count,
        ss.len() < u32::MAX,
        encoded_upto(ss, ss.len() as int).len() <= u32::MAX,
    ensures
        strtab_valid(strtab_bytes(ss), max_count),
        strtab_count(strtab_bytes(ss)) == ss.len(),
        forall|i: int| 0 <= i < ss.len() ==> decode_utf8(#[trigger] strtab_piece(strtab_bytes(ss), i)) == ss[i],
{
    broadcast use encode_utf8_valid_utf8, encode_utf8_decode_utf8;
    let n = ss.len() as int;
    let b = strtab_bytes(ss);
    let head = u32_bytes(n as u32);
    let offs = offsets_upto(ss, n + 1);
    let body = encoded_upto(ss, n);
    lemma_u32_bytes(n as u32);
    lemma_offsets(ss, n + 1, 0);
    assert(b.subrange(0, 4) =~= head);
    lemma_le_u32_at(b, 0, n as u32);
    assert(strtab_body_start(b) == 4 + offs.len());
    assert forall|i: int| 0 <= i <= n implies #[trigger] strtab_offset(b, i) == encoded_upto(ss, i).len() by {
        lemma_offsets(ss, n + 1, i);
        lemma_encoded_mono(ss, i, n);
        assert(b.subrange(4 + 4 * i, 4 + 4 * i + 4) =~= offs.subrange(4 * i, 4 * i + 4));
        lemma_le_u32_at(b, 4 + 4 * i, encoded_upto(ss, i).len() as u32);
    }
    assert(strtab_offset(b, 0) == 0) by {
        assert(encoded_upto(ss, 0).len() == 0);
    }
    assert forall|i: int| 0 <= i < n implies #[trigger] strtab_piece(b, i) == encode_utf8(ss[i]) by {
        lemma_piece(ss, n, i);
        lemma_encoded_mono(ss, i + 1, n);
        assert(strtab_offset(b, i) == encoded_upto(ss, i).len());
        assert(strtab_offset(b, i + 1) == encoded_upto(ss, i + 1).len());
        let bs = strtab_body_start(b);
        assert(b.subrange(bs + encoded_upto(ss, i).len(), bs + encoded_upto(ss, i + 1).len()) =~= body.subrange(
            encoded_upto(ss, i).len() as int,
            encoded_upto(ss, i + 1).len() as int,
        ));
    }
    assert forall|i: int| 0 <= i < n implies #[trigger] strtab_offset(b, i) <= strtab_offset(b, i + 1) by {
        lemma_encoded_mono(ss, i, i + 1);
    }
    assert forall|i: int| 0 <= i < n implies valid_utf8(#[trigger] strtab_piece(b, i)) by {
        assert(strtab_piece(b, i) == encode_utf8(ss[i]));
    }
}

/// Checks a table and returns its strings. `max_count` is the most strings the index type of
/// the table can number. Every failure is [`DictError::Corrupt`], its message led by `what`.
pub fn parse(bytes: &[u8], what: &str, max_count: usize) -> (r: Result<Vec<String>, DictError>)
    ensures
        r is Ok <==> strtab_valid(bytes@, max_count as int),
        r matches Ok(v) ==> v@.len() == strtab_count(bytes@) && forall|i: int|
            0 <= i < v@.len() ==> (#[trigger] v@[i])@ == decode_utf8(strtab_piece(bytes@, i)),
        r matches Err(e) ==> e is Corrupt,
{
    let len = bytes.len();
    if len < 4 {
        return Err(DictError::Corrupt(concat(what, ": string table is shorter than its count")));
    }
    let count = read_u32(bytes, 0) as usize;
    if count > max_count {
        return Err(DictError::Corrupt(concat(what, ": too many strings for the table")));
    }
    if count >= (len - 4) / 4 {
        return Err(DictError::Corrupt(concat(what, ": offset array runs past the end of the section")));
    }
    let body_start = 4 + 4 * (count + 1);
    if read_u32(bytes, 4) != 0 {
        return Err(DictError::Corrupt(concat(what, ": first offset is not zero")));
    }
    let body_len = len - body_start;
    if read_u32(bytes, 4 + 4 * count) as usize != body_len {
        return Err(DictError::Corrupt(concat(what, ": last offset does not match the body length")));
    }
    let mut strings: Vec<String> = Vec::new();
    let mut i: usize = 0;
    while i < count
        invariant
            len == bytes@.len(),
            count == strtab_count(bytes@),
            count <= max_count,
            body_start == strtab_body_start(bytes@),
            body_start <= len,
            body_len == len - body_start,
            strtab_offset(bytes@, 0) == 0,
            strtab_offset(bytes@, count as int) == body_len,
            i <= count,
            strings@.len() == i,
            forall|j: int| 0 <= j < i ==> #[trigger] strtab_offset(bytes@, j) <= strtab_offset(bytes@, j + 1),
            forall|j: int| 0 <= j < i ==> valid_utf8(#[trigger] strtab_piece(bytes@, j)),
            forall|j: int|
                0 <= j < i ==> (#[trigger] strings@[j])@ == decode_utf8(strtab_piece(bytes@, j)),
        decreases count - i,
    {
        let start = read_u32(bytes, 4 + 4 * i) as usize;
        let end = read_u32(bytes, 4 + 4 * (i + 1)) as usize;
        if start > end || end > body_len {
            proof {
                lemma_invalid_offsets(bytes@, max_count as int, i as int);
            }
            return Err(DictError::Corrupt(concat(what, ": offsets of a string are out of order or range")));
        }
        let piece = vstd::slice::slice_subrange(bytes, body_start + start, body_start + end);
        proof {
            assert(piece@ == strtab_piece(bytes@, i as int));
        }
        match utf8_string(piece) {
            Some(s) => {
                strings.push(s);
            },
            None => {
                return Err(DictError::Corrupt(concat(what, ": a string is not valid UTF-8")));
            },
        }
        i = i + 1;
    }
    Ok(strings)
}

proof fn lemma_invalid_offsets(b: Seq<u8>, max_count: int, i: int)
    requires
        0 <= i < strtab_count(b),
        b.len() >= 4,
        strtab_body_start(b) <= b.len(),
        strtab_offset(b, i) > strtab_offset(b, i + 1) || strtab_offset(b, i + 1) > b.len()
            - strtab_body_start(b),
    ensures
        !strtab_valid(b, max_count),
{
    if strtab_valid(b, max_count) {
        if strtab_offset(b, i) <= strtab_offset(b, i + 1) {
            lemma_offsets_bounded(b, i + 1);
        }
    }
}

/// In a valid table, every offset up to the count is at most the body length.
proof fn lemma_offsets_bounded(b: Seq<u8>, k: int)
    requires
        b.len() >= 4,
        strtab_body_start(b) <= b.len(),
        strtab_offset(b, strtab_count(b)) == b.len() - strtab_body_start(b),
        forall|i: int| 0 <= i < strtab_count(b) ==> #[trigger] strtab_offset(b, i) <= strtab_offset(b, i + 1),
        0 <= k <= strtab_count(b),
    ensures
        strtab_offset(b, k) <= b.len() - strtab_body_start(b),
    decreases strtab_count(b) - k,
{
    if k < strtab_count(b) {
        lemma_offsets_bounded(b, k + 1);
    }
}

} // verus!
