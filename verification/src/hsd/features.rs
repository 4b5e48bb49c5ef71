//! Feature records (read only when building the tokens of the best path).
//!
//! A record: `grammar_id: varint(u32)`, `flags: u8`, reading, [pronunciation], [base form].
//! The grammar id indexes GRAMMAR (part of speech, conjugation type and form).
//!
//! - flags: bit 0 = the base form is the surface (omitted), bit 1 = the pronunciation is the
//!   reading (omitted), bit 2 = the reading is packed katakana, bit 3 = the pronunciation is
//!   packed katakana. Bits 4 to 7 are 0, and bit 3 is 0 when bit 1 is set.
//! - A string is `len: varint` (LEB128, at most 5 bytes) and the bytes. Packed katakana stores
//!   U+30A0..U+30FF as one byte each (`cp - 0x30A0`, at most 0x5F); other strings are UTF-8.

use vstd::prelude::*;
use vstd::utf8::*;
use vstd::string::StringSliceAdditionalSpecFns;
use crate::le::{le_u16, push_bytes, push_u16, u16_bytes};
use crate::text::{chars_and_offsets, concat, kana_char, str_eq, string_of, utf8_str};
use std::collections::HashMap;
use super::DictError;
use super::records::GrammarRecord;

verus! {

broadcast use vstd::string::group_string_axioms, vstd::std_specs::hash::group_hash_axioms;

pub const BASE_IS_SURFACE: u8 = 1;
pub const PRON_IS_READING: u8 = 2;
pub const READING_KANA: u8 = 4;
pub const PRON_KANA: u8 = 8;
pub const KANA_BASE: u32 = 0x30A0;
pub const KANA_MAX_BYTE: u8 = 0x5F;
pub const MAX_VARINT_LEN: usize = 5;

/// The LEB128 bytes of `v`: seven bits per byte, low bits first, the top bit set on all but the
/// last byte.
pub open spec fn varint_bytes(v: u32) -> Seq<u8>
    decreases v,
{
    if v < 0x80 {
        seq![v as u8]
    } else {
        seq![((v % 0x80) + 0x80) as u8] + varint_bytes(v / 0x80)
    }
}

/// Appends the LEB128 bytes of `v`.
pub fn push_varint(buf: &mut Vec<u8>, v: u32)
    ensures
        final(buf)@ == old(buf)@ + varint_bytes(v),
{
    let ghost start = buf@;
    let ghost v0 = v;
    let mut v = v;
    while v >= 0x80
        invariant
            start + varint_bytes(v0) == buf@ + varint_bytes(v),
        decreases v,
    {
        let ghost before = buf@;
        buf.push(((v % 0x80) + 0x80) as u8);
        proof {
            assert(varint_bytes(v) == seq![((v % 0x80) + 0x80) as u8] + varint_bytes(v / 0x80));
            assert(buf@ + varint_bytes(v / 0x80) =~= before + varint_bytes(v));
        }
        v = v / 0x80;
    }
    buf.push(v as u8);
    proof {
        assert(buf@ =~= start + varint_bytes(v0));
    }
}

/// `128^i` for the byte positions of a varint.
pub open spec fn pow128(i: int) -> int {
    if i <= 0 {
        1
    } else if i == 1 {
        0x80
    } else if i == 2 {
        0x4000
    } else if i == 3 {
        0x20_0000
    } else {
        0x1000_0000
    }
}

/// Reads the varint bytes from byte `i` of the varint at `pos` on, with `acc` the value of the
/// bytes before: (value, position after it), or `None` if it is cut off, longer than 5 bytes, or
/// beyond `u32`.
pub open spec fn varint_from(b: Seq<u8>, pos: int, i: int, acc: int) -> Option<(int, int)>
    decreases 5 - i,
{
    if i >= 5 || i < 0 || pos + i >= b.len() || pos < 0 {
        None
    } else {
        let byte = b[pos + i];
        let payload = byte % 0x80;
        if i == 4 && payload > 0x0F {
            None
        } else if byte < 0x80 {
            Some((acc + payload * pow128(i), pos + i + 1))
        } else {
            varint_from(b, pos, i + 1, acc + payload * pow128(i))
        }
    }
}

/// The varint at `pos`: (value, position after it).
pub open spec fn varint_at(b: Seq<u8>, pos: int) -> Option<(int, int)> {
    varint_from(b, pos, 0, 0)
}

/// Reads a varint at `pos`: (value, position after it), or `None` if it is cut off, longer than
/// 5 bytes, or beyond `u32`.
pub fn read_varint(buf: &[u8], pos: usize) -> (r: Option<(u32, usize)>)
    ensures
        r is Some <==> varint_at(buf@, pos as int) is Some,
        r matches Some((v, p)) ==> varint_at(buf@, pos as int) == Some((v as int, p as int)),
{
    let mut value: u32 = 0;
    let mut i: usize = 0;
    while i < MAX_VARINT_LEN
        invariant
            i <= 5,
            i < 5 ==> value < pow128(i as int),
            varint_at(buf@, pos as int) == varint_from(buf@, pos as int, i as int, value as int),
        decreases 5 - i,
    {
        if pos >= buf.len() || i >= buf.len() - pos {
            return None;
        }
        let b = buf[pos + i];
        let payload = (b % 0x80) as u32;
        if i == MAX_VARINT_LEN - 1 && payload > 0x0F {
            return None;
        }
        let mul: u32 = if i == 0 {
            1
        } else if i == 1 {
            0x80
        } else if i == 2 {
            0x4000
        } else if i == 3 {
            0x20_0000
        } else {
            0x1000_0000
        };
        proof {
            assert(pow128(i as int) == mul as int);
            lemma_varint_step(payload as int, value as int, mul as int);
            if i < 4 {
                assert(pow128(i + 1) == mul * 0x80);
            } else {
                assert(mul == 0x1000_0000);
                assert(payload * 0x1000_0000 <= 0x0F * 0x1000_0000);
            }
        }
        value = value + payload * mul;
        if b < 0x80 {
            return Some((value, pos + i + 1));
        }
        i = i + 1;
    }
    None
}

proof fn lemma_varint_step(payload: int, value: int, mul: int)
    by (nonlinear_arith)
    requires
        0 <= payload < 0x80,
        0 <= value < mul,
    ensures
        payload * mul + value < mul * 0x80,
        payload * mul >= 0,
{
}

proof fn lemma_varint_len(v: u32)
    ensures
        1 <= varint_bytes(v).len(),
        v < 0x80 ==> varint_bytes(v).len() == 1,
        v < 0x4000 ==> varint_bytes(v).len() <= 2,
        v < 0x20_0000 ==> varint_bytes(v).len() <= 3,
        v < 0x1000_0000 ==> varint_bytes(v).len() <= 4,
        varint_bytes(v).len() <= 5,
    decreases v,
{
    if v >= 0x80 {
        lemma_varint_len(v / 0x80);
    }
}

proof fn lemma_varint_from(b: Seq<u8>, pos: int, i: int, acc: int, v: u32)
    requires
        0 <= pos,
        0 <= i < 5,
        0 <= acc < pow128(i),
        pos + i + varint_bytes(v).len() <= b.len(),
        b.subrange(pos + i, pos + i + varint_bytes(v).len()) == varint_bytes(v),
        acc + v * pow128(i) <= u32::MAX,
    ensures
        varint_from(b, pos, i, acc) == Some((acc + v * pow128(i), pos + i + varint_bytes(v).len())),
    decreases v,
{
    let bs = varint_bytes(v);
    assert(b[pos + i] == bs[0]) by {
        assert(b.subrange(pos + i, pos + i + bs.len())[0] == b[pos + i]);
    }
    let p = pow128(i);
    if v < 0x80 {
        if i == 4 {
            assert(v <= 0x0F) by (nonlinear_arith)
                requires
                    acc + v * 0x1000_0000 <= 0xFFFF_FFFF,
                    acc >= 0,
            ;
        }
    } else {
        lemma_varint_len(v / 0x80);
        let rest = varint_bytes(v / 0x80);
        assert(i < 4) by {
            if i == 4 {
                assert(v * 0x1000_0000 >= 0x80 * 0x1000_0000) by (nonlinear_arith)
                    requires v >= 0x80;
            }
        }
        assert(b.subrange(pos + i + 1, pos + i + 1 + rest.len()) =~= rest) by {
            assert forall|k: int| 0 <= k < rest.len() implies b.subrange(pos + i + 1, pos + i + 1 + rest.len())[k] == rest[k] by {
                assert(b.subrange(pos + i, pos + i + bs.len())[k + 1] == bs[k + 1]);
            }
        }
        let pn = pow128(i + 1);
        assert(pn == p * 0x80);
        assert(acc + (v % 0x80) * p < pn) by (nonlinear_arith)
            requires
                acc < p,
                v % 0x80 < 0x80,
                pn == p * 0x80,
                0 <= acc,
        ;
        assert(acc + (v % 0x80) * p + (v / 0x80) * pn == acc + v * p) by (nonlinear_arith)
            requires
                pn == p * 0x80,
                v == (v / 0x80) * 0x80 + v % 0x80,
        ;
        lemma_varint_from(b, pos, i + 1, acc + (v % 0x80) * p, (v / 0x80) as u32);
    }
}

/// A varint written then read back at the same place gives the value and the position after it.
pub proof fn lemma_varint_roundtrip(prefix: Seq<u8>, v: u32, rest: Seq<u8>)
    ensures
        varint_at(prefix + varint_bytes(v) + rest, prefix.len() as int) == Some((v as int, (prefix.len() + varint_bytes(v).len()) as int)),
        varint_bytes(v).len() <= MAX_VARINT_LEN,
{
    lemma_varint_len(v);
    let b = prefix + varint_bytes(v) + rest;
    assert(b.subrange(prefix.len() as int, (prefix.len() + varint_bytes(v).len()) as int) =~= varint_bytes(v));
    lemma_varint_from(b, prefix.len() as int, 0, 0, v);
}

/// A string of a feature record: packed katakana or UTF-8.
#[derive(Clone, Copy, Debug)]
pub enum PackedStr<'a> {
    Kana(&'a [u8]),
    Utf8(&'a str),
}

/// The characters a packed string stands for.
pub open spec fn packed_chars(p: PackedStr) -> Seq<char> {
    match p {
        PackedStr::Kana(b) => b@.map_values(|x: u8| (0x30A0 + x) as char),
        PackedStr::Utf8(s) => s@,
    }
}

/// Whether the string is packed, and its stored bytes.
pub open spec fn packed_view(p: PackedStr) -> (bool, Seq<u8>) {
    match p {
        PackedStr::Kana(b) => (true, b@),
        PackedStr::Utf8(s) => (false, s.spec_bytes()),
    }
}

impl<'a> PackedStr<'a> {
    /// The string, unpacking katakana (byte `b` is `U+30A0 + b`).
    pub fn into_string(self) -> (r: String)
        ensures
            r@ == packed_chars(self),
    {
        match self {
            PackedStr::Utf8(s) => s.to_owned(),
            PackedStr::Kana(bytes) => {
                let mut cs: Vec<char> = Vec::new();
                let mut i: usize = 0;
                while i < bytes.len()
                    invariant
                        i <= bytes@.len(),
                        cs@ == bytes@.take(i as int).map_values(|x: u8| (0x30A0 + x) as char),
                    decreases bytes@.len() - i,
                {
                    let c = kana_char(bytes[i]);
                    cs.push(c);
                    proof {
                        assert(cs@ =~= bytes@.take(i + 1).map_values(|x: u8| (0x30A0 + x) as char));
                    }
                    i = i + 1;
                }
                proof {
                    assert(bytes@.take(bytes@.len() as int) =~= bytes@);
                }
                string_of(cs.as_slice())
            },
        }
    }

    /// The string as an owned value (the same as [`PackedStr::into_string`]; the caller shares it).
    pub fn to_arc(self) -> (r: String)
        ensures
            r@ == packed_chars(self),
    {
        self.into_string()
    }

    pub fn is_empty(self) -> (r: bool)
        ensures
            r == (packed_view(self).1.len() == 0),
    {
        match self {
            PackedStr::Kana(b) => b.len() == 0,
            PackedStr::Utf8(s) => s.as_bytes().len() == 0,
        }
    }
}

/// A decoded feature record (base form and pronunciation `None` when omitted).
#[derive(Clone, Copy, Debug)]
pub struct FeatureRef<'a> {
    pub pos_id: u16,
    pub conj_type_id: u16,
    pub conj_form_id: u16,
    pub reading: PackedStr<'a>,
    /// `None`: the same as the reading
    pub pronunciation: Option<PackedStr<'a>>,
    /// `None`: the same as the surface
    pub base_form: Option<PackedStr<'a>>,
    /// Where the record ends
    pub end: usize,
}

/// The string at `pos`: (packed or not, its bytes, position after it), `None` if broken.
pub open spec fn str_at(b: Seq<u8>, pos: int, kana: bool) -> Option<(bool, Seq<u8>, int)> {
    match varint_at(b, pos) {
        None => None,
        Some((len, p)) => {
            if p + len > b.len() {
                None
            } else {
                let bytes = b.subrange(p, p + len);
                if kana {
                    if forall|i: int| 0 <= i < bytes.len() ==> bytes[i] <= KANA_MAX_BYTE {
                        Some((true, bytes, p + len))
                    } else {
                        None
                    }
                } else if valid_utf8(bytes) {
                    Some((false, bytes, p + len))
                } else {
                    None
                }
            }
        },
    }
}

/// A decoded record in the model: grammar id, flags, reading, pronunciation, base form, end.
pub struct RecordModel {
    pub id: int,
    pub flags: u8,
    pub reading: (bool, Seq<u8>),
    pub pron: Option<(bool, Seq<u8>)>,
    pub base: Option<(bool, Seq<u8>)>,
    pub end: int,
}

/// The record at `offset` with `grammar_len` grammar entries, `None` if it is broken.
pub open spec fn record_at(b: Seq<u8>, offset: int, grammar_len: int) -> Option<RecordModel> {
    match varint_at(b, offset) {
        None => None,
        Some((id, p1)) => {
            if id >= grammar_len || p1 >= b.len() {
                None
            } else {
                let flags = b[p1];
                if flags & !0x0Fu8 != 0 || (flags & PRON_IS_READING != 0 && flags & PRON_KANA != 0) {
                    None
                } else {
                    match str_at(b, p1 + 1, flags & READING_KANA != 0) {
                        None => None,
                        Some((rk, rb, p2)) => {
                            let pron = if flags & PRON_IS_READING != 0 {
                                Some((None::<(bool, Seq<u8>)>, p2))
                            } else {
                                match str_at(b, p2, flags & PRON_KANA != 0) {
                                    None => None,
                                    Some((k, x, p3)) => Some((Some((k, x)), p3)),
                                }
                            };
                            match pron {
                                None => None,
                                Some((pr, p3)) => {
                                    let base = if flags & BASE_IS_SURFACE != 0 {
                                        Some((None::<(bool, Seq<u8>)>, p3))
                                    } else {
                                        match str_at(b, p3, false) {
                                            None => None,
                                            Some((k, x, p4)) => Some((Some((k, x)), p4)),
                                        }
                                    };
                                    match base {
                                        None => None,
                                        Some((ba, p4)) => Some(RecordModel {
                                            id,
                                            flags,
                                            reading: (rk, rb),
                                            pron: pr,
                                            base: ba,
                                            end: p4,
                                        }),
                                    }
                                },
                            }
                        },
                    }
                }
            }
        },
    }
}

fn corrupt(what: &str) -> (e: DictError)
    ensures
        e is Corrupt,
{
    DictError::Corrupt(concat("feature record: ", what))
}

/// Reads the string at `pos`.
fn read_str<'a>(blob: &'a [u8], pos: usize, kana: bool) -> (r: Result<(PackedStr<'a>, usize), DictError>)
    ensures
        r is Ok <==> str_at(blob@, pos as int, kana) is Some,
        r matches Ok((s, p)) ==> str_at(blob@, pos as int, kana) == Some((packed_view(s).0, packed_view(s).1, p as int)),
        r matches Ok((s, p)) ==> (s matches PackedStr::Kana(b) ==> forall|i: int| 0 <= i < b@.len() ==> b@[i] <= KANA_MAX_BYTE),
        r matches Err(e) ==> e is Corrupt,
{
    let (len, p) = match read_varint(blob, pos) {
        Some(x) => x,
        None => {
            return Err(corrupt("broken length"));
        },
    };
    if len as usize > blob.len() || p > blob.len() - len as usize {
        return Err(corrupt("string runs past the end of FEATURES"));
    }
    let end = p + len as usize;
    let bytes = vstd::slice::slice_subrange(blob, p, end);
    if kana {
        let mut i: usize = 0;
        while i < bytes.len()
            invariant
                i <= bytes@.len(),
                forall|k: int| 0 <= k < i ==> bytes@[k] <= KANA_MAX_BYTE,
                varint_at(blob@, pos as int) == Some((len as int, p as int)),
                end == p + len,
                end <= blob@.len(),
                bytes@ == blob@.subrange(p as int, end as int),
                kana,
            decreases bytes@.len() - i,
        {
            if bytes[i] > KANA_MAX_BYTE {
                proof {
                    assert(bytes@[i as int] > KANA_MAX_BYTE);

                }
                return Err(corrupt("packed katakana byte out of range"));
            }
            i = i + 1;
        }
        Ok((PackedStr::Kana(bytes), end))
    } else {
        match utf8_str(bytes) {
            Some(s) => {
                proof {
                    vstd::utf8::decode_utf8_encode_utf8(bytes@);
                }
                Ok((PackedStr::Utf8(s), end))
            },
            None => Err(corrupt("invalid UTF-8")),
        }
    }
}

/// Decodes and checks the record at `offset` (grammar id, offsets, lengths, katakana, UTF-8 and
/// flags). Every failure is [`DictError::Corrupt`].
pub fn decode<'a>(blob: &'a [u8], offset: usize, grammar: &[GrammarRecord]) -> (r: Result<FeatureRef<'a>, DictError>)
    ensures
        r is Ok <==> record_at(blob@, offset as int, grammar@.len() as int) is Some,
        r matches Ok(f) ==> {
            let m = record_at(blob@, offset as int, grammar@.len() as int)->0;
            &&& f.pos_id == grammar@[m.id].pos_id
            &&& f.conj_type_id == grammar@[m.id].conj_type_id
            &&& f.conj_form_id == grammar@[m.id].conj_form_id
            &&& packed_view(f.reading) == m.reading
            &&& f.pronunciation is Some <==> m.pron is Some
            &&& (f.pronunciation matches Some(p) ==> packed_view(p) == m.pron->0)
            &&& f.base_form is Some <==> m.base is Some
            &&& (f.base_form matches Some(p) ==> packed_view(p) == m.base->0)
            &&& f.end == m.end
        },
        r matches Err(e) ==> e is Corrupt,
{
    let (id, pos) = match read_varint(blob, offset) {
        Some(x) => x,
        None => {
            return Err(corrupt("broken grammar ID"));
        },
    };
    if id as usize >= grammar.len() {
        return Err(corrupt("grammar ID out of range"));
    }
    let g = grammar[id as usize];
    if pos >= blob.len() {
        return Err(corrupt("missing flags"));
    }
    let flags = blob[pos];
    if flags & !0x0Fu8 != 0 {
        return Err(corrupt("unknown flag bits"));
    }
    if flags & PRON_IS_READING != 0 && flags & PRON_KANA != 0 {
        return Err(corrupt("PRON_KANA set although the pronunciation is omitted"));
    }
    let (reading, pos) = match read_str(blob, pos + 1, flags & READING_KANA != 0) {
        Ok(x) => x,
        Err(e) => {
            return Err(e);
        },
    };
    let (pronunciation, pos) = if flags & PRON_IS_READING != 0 {
        (None, pos)
    } else {
        match read_str(blob, pos, flags & PRON_KANA != 0) {
            Ok((s, p)) => (Some(s), p),
            Err(e) => {
                return Err(e);
            },
        }
    };
    let (base_form, pos) = if flags & BASE_IS_SURFACE != 0 {
        (None, pos)
    } else {
        match read_str(blob, pos, false) {
            Ok((s, p)) => (Some(s), p),
            Err(e) => {
                return Err(e);
            },
        }
    };
    Ok(FeatureRef {
        pos_id: g.pos_id,
        conj_type_id: g.conj_type_id,
        conj_form_id: g.conj_form_id,
        reading,
        pronunciation,
        base_form,
        end: pos,
    })
}

/// The values that go into a feature record.
pub struct FeatureInput<'a> {
    pub pos_id: u16,
    pub conj_type_id: u16,
    pub conj_form_id: u16,
    pub surface: &'a str,
    pub base_form: &'a str,
    pub reading: &'a str,
    pub pronunciation: &'a str,
}

/// A character that packs into one byte (U+30A0..U+30FF).
pub open spec fn is_kana_char(c: char) -> bool {
    0x30A0 <= c as u32 <= 0x30FF
}

/// The string packs as katakana: not empty, and every character packs.
pub open spec fn packs_as_kana(s: Seq<char>) -> bool {
    s.len() > 0 && forall|i: int| 0 <= i < s.len() ==> is_kana_char(#[trigger] s[i])
}

/// The packed bytes: `cp - 0x30A0` per character.
pub open spec fn kana_bytes(s: Seq<char>) -> Seq<u8> {
    s.map_values(|c: char| (c as u32 - 0x30A0) as u8)
}

/// The bytes stored for a string: packed katakana or UTF-8.
pub open spec fn stored_bytes(s: &str, kana: bool) -> Seq<u8> {
    if kana {
        kana_bytes(s@)
    } else {
        s.spec_bytes()
    }
}

/// A stored string: its length as a varint, then the bytes.
pub open spec fn str_field(b: Seq<u8>) -> Seq<u8> {
    varint_bytes(b.len() as u32) + b
}

/// (base form is the surface, pronunciation is the reading, reading packed, pronunciation packed)
pub open spec fn input_flags(i: FeatureInput) -> (bool, bool, bool, bool) {
    let bs = i.base_form@ == i.surface@;
    let pr = i.pronunciation@ == i.reading@;
    let rk = packs_as_kana(i.reading@);
    let pk = !pr && packs_as_kana(i.pronunciation@);
    (bs, pr, rk, pk)
}

pub open spec fn flags_byte(f: (bool, bool, bool, bool)) -> u8 {
    ((if f.0 { 1int } else { 0 }) + (if f.1 { 2int } else { 0 }) + (if f.2 { 4int } else { 0 }) + (if f.3 { 8int } else { 0 })) as u8
}

/// Every string that the record stores fits a `u32` length.
pub open spec fn input_fits(i: FeatureInput) -> bool {
    let f = input_flags(i);
    &&& stored_bytes(i.reading, f.2).len() <= u32::MAX
    &&& (f.1 || stored_bytes(i.pronunciation, f.3).len() <= u32::MAX)
    &&& (f.0 || i.base_form.spec_bytes().len() <= u32::MAX)
}

/// The canonical record: the three grammar numbers (LE), flags, the reading, the pronunciation
/// unless it is the reading, and the base form unless it is the surface.
pub open spec fn record_key(i: FeatureInput) -> Seq<u8> {
    let f = input_flags(i);
    u16_bytes(i.pos_id) + u16_bytes(i.conj_type_id) + u16_bytes(i.conj_form_id) + seq![flags_byte(f)]
        + str_field(stored_bytes(i.reading, f.2)) + (if f.1 {
        Seq::empty()
    } else {
        str_field(stored_bytes(i.pronunciation, f.3))
    }) + (if f.0 {
        Seq::empty()
    } else {
        str_field(i.base_form.spec_bytes())
    })
}

/// The string packed as katakana, when it packs.
fn pack_kana(s: &str) -> (r: Option<Vec<u8>>)
    ensures
        r is Some <==> packs_as_kana(s@),
        r matches Some(b) ==> b@ == kana_bytes(s@),
{
    let (cs, _) = chars_and_offsets(s);
    if cs.len() == 0 {
        return None;
    }
    let mut out: Vec<u8> = Vec::new();
    let mut i: usize = 0;
    while i < cs.len()
        invariant
            cs@ == s@,
            i <= cs@.len(),
            out@ == kana_bytes(cs@.take(i as int)),
            forall|j: int| 0 <= j < i ==> is_kana_char(#[trigger] cs@[j]),
        decreases cs@.len() - i,
    {
        let cp = cs[i] as u32;
        if cp < 0x30A0 || cp > 0x30FF {
            return None;
        }
        out.push((cp - 0x30A0) as u8);
        proof {
            assert(kana_bytes(cs@.take(i + 1)) =~= kana_bytes(cs@.take(i as int)).push((cp - 0x30A0) as u8));
        }
        i = i + 1;
    }
    proof {
        assert(cs@.take(cs@.len() as int) =~= cs@);
    }
    Some(out)
}

fn invalid(what: &str) -> (e: DictError)
    ensures
        e is Invalid,
{
    DictError::Invalid(what.to_owned())
}

/// Appends a stored string (length, bytes) when its length fits a `u32`.
fn push_str_field(out: &mut Vec<u8>, b: &[u8]) -> (r: Result<(), DictError>)
    ensures
        r is Ok <==> b@.len() <= u32::MAX,
        r is Ok ==> final(out)@ == old(out)@ + str_field(b@),
        r is Err ==> final(out)@ == old(out)@,
        r matches Err(e) ==> e is Invalid,
{
    if b.len() > u32::MAX as usize {
        return Err(invalid("feature string exceeds u32 length"));
    }
    push_varint(out, b.len() as u32);
    push_bytes(out, b);
    Ok(())
}

/// The canonical record of `input` (what [`FeatureTableBuilder::intern`] deduplicates on).
fn encode(input: &FeatureInput) -> (r: Result<Vec<u8>, DictError>)
    ensures
        r is Ok <==> input_fits(*input),
        r matches Ok(k) ==> k@ == record_key(*input),
        r matches Err(e) ==> e is Invalid,
{
    let ghost f = input_flags(*input);
    let base_is_surface = str_eq(input.base_form, input.surface);
    let pron_is_reading = str_eq(input.pronunciation, input.reading);
    let reading_kana = pack_kana(input.reading);
    let pron_kana = if pron_is_reading {
        None
    } else {
        pack_kana(input.pronunciation)
    };
    let flags: u8 = (if base_is_surface { 1u8 } else { 0 }) + (if pron_is_reading { 2u8 } else { 0 }) + (if reading_kana.is_some() {
        4u8
    } else {
        0
    }) + (if pron_kana.is_some() { 8u8 } else { 0 });
    let mut out: Vec<u8> = Vec::new();
    push_u16(&mut out, input.pos_id);
    push_u16(&mut out, input.conj_type_id);
    push_u16(&mut out, input.conj_form_id);
    out.push(flags);
    let ghost head = out@;
    proof {
        assert(head =~= u16_bytes(input.pos_id) + u16_bytes(input.conj_type_id) + u16_bytes(input.conj_form_id) + seq![flags_byte(f)]);
    }
    match &reading_kana {
        Some(k) => push_str_field(&mut out, k.as_slice())?,
        None => push_str_field(&mut out, input.reading.as_bytes())?,
    }
    let ghost after_reading = out@;
    if !pron_is_reading {
        match &pron_kana {
            Some(k) => push_str_field(&mut out, k.as_slice())?,
            None => push_str_field(&mut out, input.pronunciation.as_bytes())?,
        }
    }
    let ghost after_pron = out@;
    if !base_is_surface {
        push_str_field(&mut out, input.base_form.as_bytes())?;
    }
    proof {
        let pr_part = if f.1 { Seq::<u8>::empty() } else { str_field(stored_bytes(input.pronunciation, f.3)) };
        let bs_part = if f.0 { Seq::<u8>::empty() } else { str_field(input.base_form.spec_bytes()) };
        assert(after_pron =~= after_reading + pr_part);
        assert(out@ =~= after_pron + bs_part);
        assert(out@ =~= record_key(*input));
    }
    Ok(out)
}

/// FNV-1a over the first `k` bytes (the bucket of a record in the builder's index).
pub open spec fn fnv_from(b: Seq<u8>, k: int) -> u64
    decreases k,
{
    if k <= 0 {
        0xcbf2_9ce4_8422_2325u64
    } else {
        (fnv_from(b, k - 1) ^ (b[k - 1] as u64)).wrapping_mul(0x0000_0100_0000_01b3u64)
    }
}

pub open spec fn fnv(b: Seq<u8>) -> u64 {
    fnv_from(b, b.len() as int)
}

fn fnv_hash(b: &[u8]) -> (h: u64)
    ensures
        h == fnv(b@),
{
    let mut h: u64 = 0xcbf2_9ce4_8422_2325u64;
    let mut i: usize = 0;
    while i < b.len()
        invariant
            i <= b@.len(),
            h == fnv_from(b@, i as int),
        decreases b@.len() - i,
    {
        h = (h ^ (b[i] as u64)).wrapping_mul(0x0000_0100_0000_01b3u64);
        i = i + 1;
    }
    h
}

/// The first `k` records one after another.
pub open spec fn joined(rs: Seq<Seq<u8>>, k: int) -> Seq<u8>
    decreases k,
{
    if k <= 0 {
        Seq::empty()
    } else {
        joined(rs, k - 1) + rs[k - 1]
    }
}

proof fn lemma_joined_prefix(rs: Seq<Seq<u8>>, i: int, k: int)
    requires
        0 <= i <= k <= rs.len(),
    ensures
        joined(rs, i).len() <= joined(rs, k).len(),
        joined(rs, k).take(joined(rs, i).len() as int) == joined(rs, i),
    decreases k - i,
{
    if i < k {
        lemma_joined_prefix(rs, i, k - 1);
        assert(joined(rs, k).take(joined(rs, i).len() as int) =~= joined(rs, k - 1).take(joined(rs, i).len() as int));
    } else {
        assert(joined(rs, k).take(joined(rs, i).len() as int) =~= joined(rs, i));
    }
}

/// Record `i` sits in the joined records right after the records before it.
proof fn lemma_joined_part(rs: Seq<Seq<u8>>, i: int, k: int)
    requires
        0 <= i < k <= rs.len(),
    ensures
        joined(rs, i).len() + rs[i].len() <= joined(rs, k).len(),
        joined(rs, k).subrange(joined(rs, i).len() as int, (joined(rs, i).len() + rs[i].len()) as int) == rs[i],
{
    lemma_joined_prefix(rs, i + 1, k);
    let a = joined(rs, i).len() as int;
    assert(joined(rs, i + 1) == joined(rs, i) + rs[i]);
    assert(joined(rs, k).subrange(a, a + rs[i].len()) =~= joined(rs, i + 1).subrange(a, a + rs[i].len()));
    assert(joined(rs, i + 1).subrange(a, a + rs[i].len()) =~= rs[i]);
}

/// Deduplicates feature records and numbers them in the order they first came.
pub struct FeatureTableBuilder {
    blob: Vec<u8>,
    starts: Vec<usize>,
    /// FNV-1a of a record to the numbers of the records with that hash
    index: HashMap<u64, Vec<u32>>,
    records: Ghost<Seq<Seq<u8>>>,
}

impl View for FeatureTableBuilder {
    type V = Seq<Seq<u8>>;

    /// The distinct canonical records, in the order they were added.
    closed spec fn view(&self) -> Seq<Seq<u8>> {
        self.records@
    }
}

impl FeatureTableBuilder {
    pub closed spec fn wf(&self) -> bool {
        let rs = self.records@;
        &&& self.starts@.len() == rs.len()
        &&& rs.len() <= u32::MAX + 1
        &&& self.blob@ == joined(rs, rs.len() as int)
        &&& forall|i: int| 0 <= i < rs.len() ==> #[trigger] self.starts@[i] == joined(rs, i).len()
        &&& forall|i: int, j: int| 0 <= i < j < rs.len() ==> rs[i] != rs[j]
        &&& forall|i: int| 0 <= i < rs.len() ==> (#[trigger] rs[i]).len() >= 7
        &&& forall|i: int|
            0 <= i < rs.len() ==> self.index@.contains_key(fnv(#[trigger] rs[i])) && self.index@[fnv(rs[i])]@.contains(
                i as u32,
            )
        &&& forall|h: u64, k: int|
            self.index@.contains_key(h) && 0 <= k < self.index@[h]@.len() ==> (#[trigger] self.index@[h]@[k]) < rs.len()
                && fnv(rs[self.index@[h]@[k] as int]) == h
    }

    pub fn new() -> (b: Self)
        ensures
            b.wf(),
            b@ == Seq::<Seq<u8>>::empty(),
    {
        let b = FeatureTableBuilder { blob: Vec::new(), starts: Vec::new(), index: HashMap::new(), records: Ghost(Seq::empty()) };
        proof {
            assert(b.blob@ =~= joined(b.records@, 0));
        }
        b
    }

    /// Whether record `id` holds the bytes of `key`.
    fn record_is(&self, id: usize, key: &Vec<u8>) -> (r: bool)
        requires
            self.wf(),
            id < self@.len(),
        ensures
            r == (self@[id as int] == key@),
    {
        proof {
            lemma_joined_part(self.records@, id as int, self.records@.len() as int);
            if id + 1 < self.records@.len() {
                assert(joined(self.records@, id + 1) == joined(self.records@, id as int) + self.records@[id as int]);
            }
        }
        let start = self.starts[id];
        let end = if id < self.starts.len() - 1 {
            self.starts[id + 1]
        } else {
            self.blob.len()
        };
        proof {
            assert(end == start + self.records@[id as int].len());
        }
        if end - start != key.len() {
            return false;
        }
        let mut j: usize = 0;
        while j < key.len()
            invariant
                start + key@.len() == end,
                end <= self.blob@.len(),
                self.blob@.subrange(start as int, end as int) == self.records@[id as int],
                j <= key@.len(),
                forall|k: int| 0 <= k < j ==> self.blob@[start + k] == key@[k],
            decreases key@.len() - j,
        {
            if self.blob[start + j] != key[j] {
                proof {
                    assert(self.records@[id as int][j as int] == self.blob@[start + j]);
                }
                return false;
            }
            j = j + 1;
        }
        proof {
            assert(self.records@[id as int] =~= key@);
        }
        true
    }

    /// Adds a record and returns its number; a record already there keeps its number.
    pub fn intern(&mut self, input: &FeatureInput) -> (r: Result<u32, DictError>)
        requires
            old(self).wf(),
        ensures
            final(self).wf(),
            !input_fits(*input) ==> r is Err && final(self)@ == old(self)@,
            input_fits(*input) && old(self)@.contains(record_key(*input)) ==> (r matches Ok(id) && id < old(self)@.len()
                && old(self)@[id as int] == record_key(*input)) && final(self)@ == old(self)@,
            input_fits(*input) && !old(self)@.contains(record_key(*input)) ==> {
                if old(self)@.len() > u32::MAX || joined(old(self)@, old(self)@.len() as int).len() + record_key(*input).len()
                    > usize::MAX {
                    r is Err && final(self)@ == old(self)@
                } else {
                    r == Ok::<u32, DictError>(old(self)@.len() as u32) && final(self)@ == old(self)@.push(record_key(*input))
                }
            },
            r matches Err(e) ==> e is Invalid,
    {
        let key = encode(input)?;
        let h = fnv_hash(key.as_slice());
        let ghost rs = self.records@;
        match self.index.get(&h) {
            Some(ids) => {
                let mut k: usize = 0;
                while k < ids.len()
                    invariant
                        self.wf(),
                        rs == self.records@,
                        rs == old(self)@,
                        *self == *old(self),
                        key@ == record_key(*input),
                        input_fits(*input),
                        self.index@.contains_key(h),
                        ids@ == self.index@[h]@,
                        k <= ids@.len(),
                        forall|j: int| 0 <= j < k ==> rs[ids@[j] as int] != key@,
                    decreases ids@.len() - k,
                {
                    let id = ids[k];
                    if self.record_is(id as usize, &key) {
                        proof {
                            assert(rs[id as int] == key@);
                            assert(old(self)@.contains(record_key(*input)));
                        }
                        return Ok(id);
                    }
                    k = k + 1;
                }
                proof {
                    assert forall|i: int| 0 <= i < rs.len() implies rs[i] != key@ by {
                        if rs[i] == key@ {
                            assert(self.index@[fnv(rs[i])]@.contains(i as u32));
                            let j = choose|j: int| 0 <= j < ids@.len() && ids@[j] == i as u32;
                        }
                    }
                }
            },
            None => {
                proof {
                    assert forall|i: int| 0 <= i < rs.len() implies rs[i] != key@ by {
                        if rs[i] == key@ {
                            assert(self.index@.contains_key(fnv(rs[i])));
                        }
                    }
                }
            },
        }
        if self.starts.len() > u32::MAX as usize {
            return Err(invalid("too many distinct feature records"));
        }
        let id = self.starts.len() as u32;
        if self.blob.len() > usize::MAX - key.len() {
            return Err(invalid("canonical feature records exceed address space"));
        }
        let ghost old_index = self.index@;
        self.starts.push(self.blob.len());
        push_bytes(&mut self.blob, key.as_slice());
        let mut ids = match self.index.remove(&h) {
            Some(v) => v,
            None => Vec::new(),
        };
        let ghost old_ids = ids@;
        ids.push(id);
        self.index.insert(h, ids);
        self.records = Ghost(rs.push(key@));
        proof {
            let rs2 = self.records@;
            assert(joined(rs2, rs2.len() as int) == joined(rs, rs.len() as int) + key@) by {
                assert(joined(rs2, rs.len() as int) =~= joined(rs, rs.len() as int)) by {
                    lemma_joined_same(rs, rs2, rs.len() as int);
                }
            }
            assert forall|i: int| 0 <= i < rs2.len() implies #[trigger] self.starts@[i] == joined(rs2, i).len() by {
                lemma_joined_same(rs, rs2, i);
            }
            assert forall|i: int| 0 <= i < rs2.len() implies self.index@.contains_key(fnv(#[trigger] rs2[i]))
                && self.index@[fnv(rs2[i])]@.contains(i as u32) by {
                if i < rs.len() {
                    assert(rs2[i] == rs[i]);
                    if fnv(rs[i]) == h {
                        assert(old_index[h]@.contains(i as u32));
                        let j = choose|j: int| 0 <= j < old_index[h]@.len() && old_index[h]@[j] == i as u32;
                        assert(self.index@[h]@[j] == i as u32);
                    }
                } else {
                    assert(self.index@[h]@[old_ids.len() as int] == id);
                }
            }
            assert forall|hh: u64, k: int| self.index@.contains_key(hh) && 0 <= k < self.index@[hh]@.len() implies (#[trigger] self.index@[hh]@[k])
                < rs2.len() && fnv(rs2[self.index@[hh]@[k] as int]) == hh by {
                if hh == h {
                    if k < old_ids.len() {
                        assert(self.index@[hh]@[k] == old_index[h]@[k]);
                    }
                }
            }
        }
        Ok(id)
    }

    /// The number of distinct records.
    pub fn len(&self) -> (n: usize)
        requires
            self.wf(),
        ensures
            n == self@.len(),
    {
        self.starts.len()
    }
}

proof fn lemma_joined_same(a: Seq<Seq<u8>>, b: Seq<Seq<u8>>, k: int)
    requires
        0 <= k <= a.len(),
        k <= b.len(),
        forall|i: int| 0 <= i < k ==> a[i] == b[i],
    ensures
        joined(a, k) == joined(b, k),
    decreases k,
{
    if k > 0 {
        lemma_joined_same(a, b, k - 1);
    }
}

impl Default for FeatureTableBuilder {
    fn default() -> (b: Self)
        ensures
            b.wf(),
            b@ == Seq::<Seq<u8>>::empty(),
    {
        FeatureTableBuilder::new()
    }
}

/// The grammar numbers of a record (its first six bytes) as one key, ordered like the triple.
pub open spec fn record_grammar(r: Seq<u8>) -> int {
    le_u16(r, 0) * 0x1_0000_0000 + le_u16(r, 2) * 0x1_0000 + le_u16(r, 4)
}

/// Some record uses grammar `g`.
pub open spec fn grammar_used(rs: Seq<Seq<u8>>, g: int) -> bool {
    exists|t: int| 0 <= t < rs.len() && #[trigger] record_grammar(rs[t]) == g
}

/// The key of a grammar triple, ordered like the triple.
pub open spec fn grammar_key(g: GrammarRecord) -> int {
    g.pos_id * 0x1_0000_0000 + g.conj_type_id * 0x1_0000 + g.conj_form_id
}

pub open spec fn grammar_keys(gs: Seq<GrammarRecord>) -> Seq<int> {
    gs.map_values(|g: GrammarRecord| grammar_key(g))
}

/// How many of the first `k` records use grammar `g`.
pub open spec fn grammar_count(rs: Seq<Seq<u8>>, g: int, k: int) -> int
    decreases k,
{
    if k <= 0 {
        0
    } else {
        grammar_count(rs, g, k - 1) + if record_grammar(rs[k - 1]) == g {
            1int
        } else {
            0
        }
    }
}

/// Grammar `a` comes before `b`: more records use it, or as many and it is smaller.
pub open spec fn ranks_before(rs: Seq<Seq<u8>>, a: int, b: int) -> bool {
    let ca = grammar_count(rs, a, rs.len() as int);
    let cb = grammar_count(rs, b, rs.len() as int);
    ca > cb || (ca == cb && a < b)
}

/// `ks` holds the grammars of the records, each once, in rank order.
pub open spec fn is_grammar_ranking(ks: Seq<int>, rs: Seq<Seq<u8>>) -> bool {
    &&& forall|i: int| 0 <= i < rs.len() ==> ks.contains(#[trigger] record_grammar(rs[i]))
    &&& forall|j: int| 0 <= j < ks.len() ==> grammar_used(rs, #[trigger] ks[j])
    &&& forall|a: int, b: int| 0 <= a < b < ks.len() ==> ranks_before(rs, #[trigger] ks[a], #[trigger] ks[b])
}

/// The final records: each canonical record with its six grammar bytes replaced by the varint of
/// the grammar's rank.
pub open spec fn encoded(rs: Seq<Seq<u8>>, ks: Seq<int>, k: int) -> Seq<u8>
    decreases k,
{
    if k <= 0 {
        Seq::empty()
    } else {
        encoded(rs, ks, k - 1) + varint_bytes(ks.index_of(record_grammar(rs[k - 1])) as u32) + rs[k - 1].skip(6)
    }
}

/// There is one ranking of the grammars of a set of records.
pub proof fn lemma_grammar_ranking_unique(k1: Seq<int>, k2: Seq<int>, rs: Seq<Seq<u8>>)
    requires
        is_grammar_ranking(k1, rs),
        is_grammar_ranking(k2, rs),
    ensures
        k1 == k2,
{
    assert forall|j: int| 0 <= j < k1.len() implies k2.contains(#[trigger] k1[j]) by {
        let i = choose|i: int| 0 <= i < rs.len() && #[trigger] record_grammar(rs[i]) == k1[j];
    }
    assert forall|j: int| 0 <= j < k2.len() implies k1.contains(#[trigger] k2[j]) by {
        let i = choose|i: int| 0 <= i < rs.len() && #[trigger] record_grammar(rs[i]) == k2[j];
    }
    let m = if k1.len() < k2.len() { k1.len() as int } else { k2.len() as int };
    assert forall|j: int| 0 <= j < m implies k1[j] == k2[j] by {
        lemma_ranking_prefix(k1, k2, rs, j);
    }
    if k1.len() > k2.len() {
        let x = k1[m];
        assert(k2.contains(x));
        let p = choose|p: int| 0 <= p < k2.len() && k2[p] == x;
        assert(k1[p] == k2[p]);
        assert(ranks_before(rs, k1[p], k1[m]));
    } else if k2.len() > k1.len() {
        let x = k2[m];
        assert(k1.contains(x));
        let p = choose|p: int| 0 <= p < k1.len() && k1[p] == x;
        assert(k1[p] == k2[p]);
        assert(ranks_before(rs, k2[p], k2[m]));
    }
    assert(k1 =~= k2);
}

proof fn lemma_ranking_prefix(k1: Seq<int>, k2: Seq<int>, rs: Seq<Seq<u8>>, j: int)
    requires
        is_grammar_ranking(k1, rs),
        is_grammar_ranking(k2, rs),
        forall|t: int| 0 <= t < k1.len() ==> k2.contains(#[trigger] k1[t]),
        forall|t: int| 0 <= t < k2.len() ==> k1.contains(#[trigger] k2[t]),
        0 <= j < k1.len(),
        j < k2.len(),
    ensures
        k1[j] == k2[j],
    decreases j,
{
    assert forall|t: int| 0 <= t < j implies k1[t] == k2[t] by {
        lemma_ranking_prefix(k1, k2, rs, t);
    }
    let x = k1[j];
    let y = k2[j];
    let p = choose|p: int| 0 <= p < k2.len() && k2[p] == x;
    let q = choose|q: int| 0 <= q < k1.len() && k1[q] == y;
    if p < j {
        assert(k1[p] == k2[p]);
        assert(ranks_before(rs, k1[p], k1[j]));
    }
    if q < j {
        assert(k1[q] == k2[q]);
        assert(ranks_before(rs, k2[q], k2[j]));
    }
    if p > j && q > j {
        assert(ranks_before(rs, k2[j], k2[p]));
        assert(ranks_before(rs, k1[j], k1[q]));
    }
}

/// The shared grammar table, and the final records with the offset of each.
pub struct FeatureTable {
    pub grammar: Vec<GrammarRecord>,
    pub offsets: Vec<u32>,
    pub blob: Vec<u8>,
}

/// The grammars of the pairs.
pub open spec fn pair_grammars(s: Seq<(u64, u64)>) -> Seq<int> {
    s.map_values(|p: (u64, u64)| p.1 as int)
}

pub open spec fn pair_le(a: (u64, u64), b: (u64, u64)) -> bool {
    a.0 < b.0 || (a.0 == b.0 && a.1 <= b.1)
}

/// Sorts the pairs in ascending (lexicographic) order (`slice::sort_unstable`).
#[verifier::external_body]
pub(crate) fn sort_pairs(v: &mut Vec<(u64, u64)>)
    ensures
        final(v)@.to_multiset() == old(v)@.to_multiset(),
        forall|a: int, b: int| 0 <= a < b < final(v)@.len() ==> pair_le(final(v)@[a], final(v)@[b]),
{
    v.sort_unstable();
}

proof fn lemma_grammar_count_bound(rs: Seq<Seq<u8>>, g: int, k: int)
    requires
        0 <= k,
    ensures
        0 <= grammar_count(rs, g, k) <= k,
    decreases k,
{
    if k > 0 {
        lemma_grammar_count_bound(rs, g, k - 1);
    }
}

impl FeatureTableBuilder {
    /// The grammar key of record `i` (its first six bytes).
    fn grammar_at(&self, i: usize) -> (g: u64)
        requires
            self.wf(),
            i < self@.len(),
        ensures
            g == record_grammar(self@[i as int]),
    {
        proof {
            lemma_joined_part(self.records@, i as int, self.records@.len() as int);
        }
        let s = self.starts[i];
        proof {
            let r = self.records@[i as int];
            assert(s + r.len() <= self.blob@.len());
            assert forall|k: int| 0 <= k < 6 implies self.blob@[s + k] == r[k] by {
                assert(self.blob@.subrange(s as int, s + r.len()) == r);
            }
        }
        let b = &self.blob;
        let blen = b.len();
        proof {
            assert(s + 6 < blen);
        }
        let pos = b[s] as u64 + b[s + 1] as u64 * 256;
        let typ = b[s + 2] as u64 + b[s + 3] as u64 * 256;
        let form = b[s + 4] as u64 + b[s + 5] as u64 * 256;
        pos * 0x1_0000_0000 + typ * 0x1_0000 + form
    }

    /// Ranks the grammars by how many distinct records use them (ties by the grammar numbers) and
    /// writes the final records: the grammar's rank as a varint, then the rest of the record.
    #[verifier::rlimit(40)]
    pub fn finish(self) -> (r: Result<FeatureTable, DictError>)
        requires
            self.wf(),
        ensures
            r matches Ok(t) ==> {
                let ks = grammar_keys(t.grammar@);
                &&& is_grammar_ranking(ks, self@)
                &&& t.blob@ == encoded(self@, ks, self@.len() as int)
                &&& t.blob@.len() <= u32::MAX
                &&& t.offsets@.len() == self@.len()
                &&& forall|i: int| 0 <= i < self@.len() ==> #[trigger] t.offsets@[i] == encoded(self@, ks, i).len()
            },
            r matches Err(e) ==> e is Invalid && forall|ks: Seq<int>|
                is_grammar_ranking(ks, self@) ==> ks.len() > u32::MAX || encoded(self@, ks, self@.len() as int).len() > u32::MAX,
    {
        let ghost rs = self.records@;
        let n = self.starts.len();
        // grammar of each record, with counts and the distinct grammars in first-use order
        let mut counts: HashMap<u64, u64> = HashMap::new();
        let mut distinct: Vec<u64> = Vec::new();
        let mut i: usize = 0;
        while i < n
            invariant
                self.wf(),
                rs == self.records@,
                n == rs.len(),
                i <= n,
                forall|g: u64| #[trigger] counts@.contains_key(g) <==> distinct@.contains(g),
                forall|g: u64| counts@.contains_key(g) ==> #[trigger] counts@[g] == grammar_count(rs, g as int, i as int),
                distinct@.no_duplicates(),
                forall|j: int| 0 <= j < distinct@.len() ==> grammar_used(rs, #[trigger] distinct@[j] as int),
                forall|t: int| 0 <= t < i ==> distinct@.contains(#[trigger] record_grammar(rs[t]) as u64),
            decreases n - i,
        {
            let g = self.grammar_at(i);
            proof {
                lemma_grammar_count_bound(rs, g as int, i as int);
                assert forall|h: u64| h != g && counts@.contains_key(h) implies grammar_count(rs, h as int, i + 1) == grammar_count(rs, h as int, i as int) by {}
            }
            match counts.get(&g) {
                Some(c) => {
                    proof {
                        assert(distinct@.contains(g));
                    }
                    let c2 = *c + 1;
                    counts.insert(g, c2);
                },
                None => {
                    proof {
                        assert forall|t: int| 0 <= t < i implies record_grammar(rs[t]) != g by {
                            assert(distinct@.contains(record_grammar(rs[t]) as u64));
                        }
                        lemma_grammar_count_zero(rs, g as int, i as int);
                    }
                    counts.insert(g, 1);
                    let ghost d0 = distinct@;
                    distinct.push(g);
                    proof {
                        assert(distinct@[d0.len() as int] == g);
                        assert forall|x: u64| d0.contains(x) implies distinct@.contains(x) by {
                            let t = choose|t: int| 0 <= t < d0.len() && d0[t] == x;
                            assert(distinct@[t] == x);
                        }
                    }
                },
            }
            proof {
                assert forall|j: int| 0 <= j < distinct@.len() implies grammar_used(rs, #[trigger] distinct@[j] as int) by {
                    if distinct@[j] == g {
                        assert(record_grammar(rs[i as int]) == distinct@[j]);
                    }
                }
                assert forall|t: int| 0 <= t < i + 1 implies distinct@.contains(#[trigger] record_grammar(rs[t]) as u64) by {
                    if t == i {
                        assert(distinct@.contains(g));
                    }
                }
            }
            i = i + 1;
        }
        // (u64::MAX - count, grammar) sorts into rank order
        let mut pairs: Vec<(u64, u64)> = Vec::new();
        let mut j: usize = 0;
        while j < distinct.len()
            invariant
                j <= distinct@.len(),
                pairs@.len() == j,
                forall|t: int| 0 <= t < j ==> #[trigger] pairs@[t] == (
                    (u64::MAX - grammar_count(rs, distinct@[t] as int, n as int)) as u64,
                    distinct@[t],
                ),
                forall|g: u64| #[trigger] counts@.contains_key(g) <==> distinct@.contains(g),
                forall|g: u64| counts@.contains_key(g) ==> #[trigger] counts@[g] == grammar_count(rs, g as int, n as int),
                n == rs.len(),
                self.wf(),
                rs == self.records@,
                distinct@.no_duplicates(),
                forall|j: int| 0 <= j < distinct@.len() ==> grammar_used(rs, #[trigger] distinct@[j] as int),
                forall|t: int| 0 <= t < rs.len() ==> distinct@.contains(#[trigger] record_grammar(rs[t]) as u64),
            decreases distinct@.len() - j,
        {
            let g = distinct[j];
            proof {
                assert(counts@.contains_key(g));
                lemma_grammar_count_bound(rs, g as int, n as int);
            }
            let c = match counts.get(&g) {
                Some(c) => *c,
                None => 0,
            };
            pairs.push((u64::MAX - c, g));
            j = j + 1;
        }
        let ghost unsorted = pairs@;
        proof {
            assert(unsorted.no_duplicates()) by {
                assert forall|a: int, b: int| 0 <= a < b < unsorted.len() implies unsorted[a] != unsorted[b] by {
                    assert(distinct@[a] != distinct@[b]);
                }
            }
        }
        sort_pairs(&mut pairs);
        proof {
            pairs@.to_multiset_ensures();
            unsorted.to_multiset_ensures();
            unsorted.lemma_multiset_has_no_duplicates();
            assert forall|x: (u64, u64)| pairs@.to_multiset().contains(x) implies pairs@.to_multiset().count(x) == 1 by {}
            pairs@.lemma_multiset_has_no_duplicates_conv();
        }
        let ghost sorted_ks = pair_grammars(pairs@);
        proof {
            assert forall|t: int| 0 <= t < distinct@.len() implies 0 <= grammar_count(rs, #[trigger] distinct@[t] as int, rs.len() as int) <= rs.len() by {
                lemma_grammar_count_bound(rs, distinct@[t] as int, rs.len() as int);
            }
            assert forall|t: int| 0 <= t < rs.len() implies 0 <= #[trigger] record_grammar(rs[t]) < 0x1_0000_0000_0000 by {}
            lemma_pairs_ranking(pairs@, unsorted, distinct@, rs);
            assert forall|a: int, b: int| 0 <= a < b < pairs@.len() implies pairs@[a].1 != pairs@[b].1 by {
                assert(ranks_before(rs, sorted_ks[a], sorted_ks[b]));
            }
        }
        if pairs.len() > u32::MAX as usize {
            proof {
                assert forall|k2: Seq<int>| is_grammar_ranking(k2, rs) implies k2.len() > u32::MAX || encoded(rs, k2, n as int).len() > u32::MAX by {
                    lemma_grammar_ranking_unique(k2, sorted_ks, rs);
                }
            }
            return Err(invalid("too many distinct grammar records"));
        }
        let mut grammar: Vec<GrammarRecord> = Vec::new();
        let mut ranks: HashMap<u64, u32> = HashMap::new();
        let mut k: usize = 0;
        while k < pairs.len()
            invariant
                k <= pairs@.len(),
                pairs@.len() <= u32::MAX,
                grammar@.len() == k,
                forall|t: int| 0 <= t < k ==> grammar_key(#[trigger] grammar@[t]) == pairs@[t].1,
                forall|g: u64| #[trigger] ranks@.contains_key(g) <==> exists|t: int| 0 <= t < k && pairs@[t].1 == g,
                forall|t: int| 0 <= t < k ==> ranks@.contains_key(#[trigger] pairs@[t].1) && ranks@[pairs@[t].1] == t,
                forall|a: int, b: int| 0 <= a < b < pairs@.len() ==> pairs@[a].1 != pairs@[b].1,
                forall|t: int| 0 <= t < pairs@.len() ==> #[trigger] pairs@[t].1 < 0x1_0000_0000_0000,
            decreases pairs@.len() - k,
        {
            let g = pairs[k].1;
            let rec = GrammarRecord {
                pos_id: (g / 0x1_0000_0000) as u16,
                conj_type_id: ((g / 0x1_0000) % 0x1_0000) as u16,
                conj_form_id: (g % 0x1_0000) as u16,
            };
            proof {
                lemma_split_grammar(g);
            }
            grammar.push(rec);
            ranks.insert(g, k as u32);
            k = k + 1;
        }
        let ghost ks = grammar_keys(grammar@);
        proof {
            assert forall|t: int| 0 <= t < pairs@.len() implies #[trigger] ks[t] == pairs@[t].1 by {}
            assert(ks =~= sorted_ks);
            assert(ks.no_duplicates()) by {
                assert forall|a: int, b: int| 0 <= a < b < ks.len() implies ks[a] != ks[b] by {
                    assert(ranks_before(rs, ks[a], ks[b]));
                }
            }
        }
        let mut out: Vec<u8> = Vec::new();
        let mut offsets: Vec<u32> = Vec::new();
        let mut i: usize = 0;
        while i < n
            invariant
                self.wf(),
                rs == self.records@,
                n == rs.len(),
                i <= n,
                is_grammar_ranking(ks, rs),
                ks.no_duplicates(),
                ks.len() == pairs@.len(),
                ks.len() <= u32::MAX,
                ks == grammar_keys(grammar@),
                forall|t: int| 0 <= t < ks.len() ==> ranks@.contains_key(#[trigger] pairs@[t].1) && ranks@[pairs@[t].1] == t,
                forall|t: int| 0 <= t < ks.len() ==> #[trigger] ks[t] == pairs@[t].1,
                out@ == encoded(rs, ks, i as int),
                out@.len() <= u32::MAX,
                offsets@.len() == i,
                forall|t: int| 0 <= t < i ==> #[trigger] offsets@[t] == encoded(rs, ks, t).len(),
            decreases n - i,
        {
            let g = self.grammar_at(i);
            let ghost p = ks.index_of(g as int);
            proof {
                assert(ks.contains(record_grammar(rs[i as int])));
                let r = choose|r: int| 0 <= r < ks.len() && ks[r] == g as int;
                assert(ks[p] == g as int);
                if p != r {
                    if p < r {
                        assert(ks[p] != ks[r]);
                    } else {
                        assert(ks[r] != ks[p]);
                    }
                }
                assert(ranks@.contains_key(pairs@[r].1));
            }
            let id = match ranks.get(&g) {
                Some(x) => *x,
                None => 0,
            };
            proof {
                assert(id == p);
                lemma_joined_part(rs, i as int, n as int);
            }
            let start = self.starts[i];
            let end = if i < n - 1 {
                self.starts[i + 1]
            } else {
                self.blob.len()
            };
            proof {
                if i < n - 1 {
                    assert(joined(rs, i + 1) == joined(rs, i as int) + rs[i as int]);
                }
                assert(end == start + rs[i as int].len());
                assert(self.blob@.subrange(start as int, end as int) == rs[i as int]);
            }
            let mut head: Vec<u8> = Vec::new();
            push_varint(&mut head, id);
            let suffix = vstd::slice::slice_subrange(self.blob.as_slice(), start + 6, end);
            proof {
                assert(suffix@ =~= rs[i as int].skip(6));
                assert(head@ =~= varint_bytes(id));
                assert(encoded(rs, ks, i + 1) == encoded(rs, ks, i as int) + varint_bytes(id) + rs[i as int].skip(6));
            }
            if head.len() > u32::MAX as usize - out.len() || suffix.len() > u32::MAX as usize - out.len() - head.len() {
                proof {
                    lemma_encoded_mono(rs, ks, i + 1, n as int);
                    assert forall|k2: Seq<int>| is_grammar_ranking(k2, rs) implies k2.len() > u32::MAX || encoded(rs, k2, n as int).len() > u32::MAX by {
                        lemma_grammar_ranking_unique(k2, ks, rs);
                    }
                }
                return Err(invalid("feature records exceed 4 GiB"));
            }
            offsets.push(out.len() as u32);
            push_bytes(&mut out, head.as_slice());
            push_bytes(&mut out, suffix);
            proof {
                assert(out@ =~= encoded(rs, ks, i + 1));
            }
            i = i + 1;
        }
        Ok(FeatureTable { grammar, offsets, blob: out })
    }
}

proof fn lemma_grammar_count_zero(rs: Seq<Seq<u8>>, g: int, k: int)
    requires
        forall|t: int| 0 <= t < k ==> record_grammar(rs[t]) != g,
    ensures
        grammar_count(rs, g, k) == 0,
    decreases k,
{
    if k > 0 {
        lemma_grammar_count_zero(rs, g, k - 1);
    }
}

proof fn lemma_encoded_mono(rs: Seq<Seq<u8>>, ks: Seq<int>, a: int, b: int)
    requires
        0 <= a <= b,
    ensures
        encoded(rs, ks, a).len() <= encoded(rs, ks, b).len(),
    decreases b - a,
{
    if a < b {
        lemma_encoded_mono(rs, ks, a, b - 1);
    }
}

/// A grammar key below 2^48 splits back into its three numbers.
proof fn lemma_split_grammar(g: u64)
    requires
        g < 0x1_0000_0000_0000,
    ensures
        (g / 0x1_0000_0000) < 0x1_0000,
        (g / 0x1_0000_0000) * 0x1_0000_0000 + ((g / 0x1_0000) % 0x1_0000) * 0x1_0000 + g % 0x1_0000 == g,
{
    assert((g / 0x1_0000_0000) < 0x1_0000) by (bit_vector)
        requires
            g < 0x1_0000_0000_0000u64,
    ;
    assert((g / 0x1_0000_0000) * 0x1_0000_0000 + ((g / 0x1_0000) % 0x1_0000) * 0x1_0000 + g % 0x1_0000 == g) by (bit_vector)
        requires
            g < 0x1_0000_0000_0000u64,
    ;
}

/// The grammars of the sorted pairs are the grammar ranking of the records.
proof fn lemma_pairs_ranking(sorted: Seq<(u64, u64)>, unsorted: Seq<(u64, u64)>, distinct: Seq<u64>, rs: Seq<Seq<u8>>)
    requires
        sorted.to_multiset() == unsorted.to_multiset(),
        forall|a: int, b: int| 0 <= a < b < sorted.len() ==> pair_le(sorted[a], sorted[b]),
        sorted.no_duplicates(),
        unsorted.len() == distinct.len(),
        forall|t: int| 0 <= t < distinct.len() ==> #[trigger] unsorted[t] == (
            (u64::MAX - grammar_count(rs, distinct[t] as int, rs.len() as int)) as u64,
            distinct[t],
        ),
        forall|t: int| 0 <= t < distinct.len() ==> 0 <= grammar_count(rs, #[trigger] distinct[t] as int, rs.len() as int) <= rs.len(),
        rs.len() <= u32::MAX + 1,
        forall|j: int| 0 <= j < distinct.len() ==> grammar_used(rs, #[trigger] distinct[j] as int),
        forall|t: int| 0 <= t < rs.len() ==> distinct.contains(#[trigger] record_grammar(rs[t]) as u64),
        forall|t: int| 0 <= t < rs.len() ==> 0 <= #[trigger] record_grammar(rs[t]) < 0x1_0000_0000_0000,
    ensures
        is_grammar_ranking(pair_grammars(sorted), rs),
        sorted.len() == distinct.len(),
        forall|t: int| 0 <= t < sorted.len() ==> #[trigger] sorted[t].1 < 0x1_0000_0000_0000,
{
    sorted.to_multiset_ensures();
    unsorted.to_multiset_ensures();
    let ks = pair_grammars(sorted);
    assert(sorted.len() == unsorted.len()) by {
        assert(sorted.to_multiset().len() == unsorted.to_multiset().len());
    }
    // each sorted pair is one of the unsorted ones
    assert forall|j: int| 0 <= j < sorted.len() implies exists|t: int| 0 <= t < unsorted.len() && unsorted[t] == #[trigger] sorted[j] by {
        assert(sorted.contains(sorted[j]));
        assert(sorted.to_multiset().count(sorted[j]) > 0);
        assert(unsorted.contains(sorted[j]));
    }
    assert forall|i: int| 0 <= i < rs.len() implies ks.contains(#[trigger] record_grammar(rs[i])) by {
        let g = record_grammar(rs[i]) as u64;
        let t = choose|t: int| 0 <= t < distinct.len() && distinct[t] == g;
        assert(unsorted[t].1 == g);
        assert(unsorted.contains(unsorted[t]));
        assert(unsorted.to_multiset().count(unsorted[t]) > 0);
        assert(sorted.contains(unsorted[t]));
        let j = choose|j: int| 0 <= j < sorted.len() && sorted[j] == unsorted[t];
        assert(ks[j] == sorted[j].1 as int);
        assert(ks[j] == record_grammar(rs[i]));
    }
    assert forall|j: int| 0 <= j < ks.len() implies grammar_used(rs, #[trigger] ks[j]) by {
        let t = choose|t: int| 0 <= t < unsorted.len() && unsorted[t] == sorted[j];
        assert(grammar_used(rs, distinct[t] as int));
        let i = choose|i: int| 0 <= i < rs.len() && #[trigger] record_grammar(rs[i]) == distinct[t];
        assert(ks[j] == sorted[j].1 as int);
        assert(record_grammar(rs[i]) == ks[j]);
    }
    assert forall|a: int, b: int| 0 <= a < b < ks.len() implies ranks_before(rs, #[trigger] ks[a], #[trigger] ks[b]) by {
        let ta = choose|t: int| 0 <= t < unsorted.len() && unsorted[t] == sorted[a];
        let tb = choose|t: int| 0 <= t < unsorted.len() && unsorted[t] == sorted[b];
        assert(pair_le(sorted[a], sorted[b]));
        assert(sorted[a] != sorted[b]);
        assert(0 <= grammar_count(rs, distinct[ta] as int, rs.len() as int) <= rs.len());
        assert(0 <= grammar_count(rs, distinct[tb] as int, rs.len() as int) <= rs.len());
        assert(unsorted[ta] == ((u64::MAX - grammar_count(rs, distinct[ta] as int, rs.len() as int)) as u64, distinct[ta]));
        assert(unsorted[tb] == ((u64::MAX - grammar_count(rs, distinct[tb] as int, rs.len() as int)) as u64, distinct[tb]));
        assert(ks[a] == sorted[a].1 as int);
        assert(ks[b] == sorted[b].1 as int);
    }
    assert forall|t: int| 0 <= t < sorted.len() implies #[trigger] sorted[t].1 < 0x1_0000_0000_0000 by {
        let u = choose|u: int| 0 <= u < unsorted.len() && unsorted[u] == sorted[t];
        assert(grammar_used(rs, distinct[u] as int));
        let i = choose|i: int| 0 <= i < rs.len() && #[trigger] record_grammar(rs[i]) == distinct[u];
    }
}

/// What decoding the final record of `i` gives, with grammar rank `rank`, ending at `end`.
pub open spec fn input_model(i: FeatureInput, rank: int, end: int) -> RecordModel {
    let f = input_flags(i);
    RecordModel {
        id: rank,
        flags: flags_byte(f),
        reading: (f.2, stored_bytes(i.reading, f.2)),
        pron: if f.1 {
            None
        } else {
            Some((f.3, stored_bytes(i.pronunciation, f.3)))
        },
        base: if f.0 {
            None
        } else {
            Some((false, i.base_form.spec_bytes()))
        },
        end,
    }
}

proof fn lemma_kana_bytes_small(s: Seq<char>)
    requires
        forall|i: int| 0 <= i < s.len() ==> is_kana_char(#[trigger] s[i]),
    ensures
        forall|i: int| 0 <= i < kana_bytes(s).len() ==> #[trigger] kana_bytes(s)[i] <= KANA_MAX_BYTE,
{
    assert forall|i: int| 0 <= i < kana_bytes(s).len() implies #[trigger] kana_bytes(s)[i] <= KANA_MAX_BYTE by {
        assert(is_kana_char(s[i]));
    }
}

/// A stored string reads back as itself.
proof fn lemma_str_field_at(pre: Seq<u8>, bytes: Seq<u8>, kana: bool, rest: Seq<u8>)
    requires
        bytes.len() <= u32::MAX,
        kana ==> forall|i: int| 0 <= i < bytes.len() ==> #[trigger] bytes[i] <= KANA_MAX_BYTE,
        !kana ==> valid_utf8(bytes),
    ensures
        str_at(pre + str_field(bytes) + rest, pre.len() as int, kana) == Some((kana, bytes, (pre.len() + str_field(bytes).len()) as int)),
{
    let len = bytes.len() as u32;
    let b = pre + str_field(bytes) + rest;
    assert(b =~= pre + varint_bytes(len) + (bytes + rest));
    lemma_varint_roundtrip(pre, len, bytes + rest);
    let p = pre.len() + varint_bytes(len).len();
    assert(b.subrange(p as int, (p + bytes.len()) as int) =~= bytes);
}

proof fn lemma_flag_bits(f: (bool, bool, bool, bool))
    ensures
        flags_byte(f) & !0x0Fu8 == 0,
        (flags_byte(f) & BASE_IS_SURFACE != 0) == f.0,
        (flags_byte(f) & PRON_IS_READING != 0) == f.1,
        (flags_byte(f) & READING_KANA != 0) == f.2,
        (flags_byte(f) & PRON_KANA != 0) == f.3,
{
    let x = flags_byte(f);
    assert(x < 16);
    assert(x & !0x0Fu8 == 0) by (bit_vector)
        requires
            x < 16,
    ;
    assert((x & 1u8 != 0) == (x % 2 == 1)) by (bit_vector);
    assert((x & 2u8 != 0) == ((x / 2) % 2 == 1)) by (bit_vector);
    assert((x & 4u8 != 0) == ((x / 4) % 2 == 1)) by (bit_vector);
    assert((x & 8u8 != 0) == ((x / 8) % 2 == 1)) by (bit_vector);
}

/// The record built from its parts decodes back into them.
#[verifier::rlimit(100)]
proof fn lemma_parts_roundtrip(
    before: Seq<u8>,
    rank: u32,
    grammar_len: int,
    f: (bool, bool, bool, bool),
    rb: Seq<u8>,
    pb: Seq<u8>,
    bb: Seq<u8>,
    after: Seq<u8>,
)
    requires
        rank < grammar_len,
        !f.1 || !f.3,
        rb.len() <= u32::MAX,
        pb.len() <= u32::MAX,
        bb.len() <= u32::MAX,
        f.2 ==> forall|i: int| 0 <= i < rb.len() ==> #[trigger] rb[i] <= KANA_MAX_BYTE,
        !f.2 ==> valid_utf8(rb),
        f.3 ==> forall|i: int| 0 <= i < pb.len() ==> #[trigger] pb[i] <= KANA_MAX_BYTE,
        !f.3 ==> valid_utf8(pb),
        valid_utf8(bb),
    ensures
        ({
            let rest = seq![flags_byte(f)] + str_field(rb) + (if f.1 { Seq::<u8>::empty() } else { str_field(pb) }) + (if f.0 {
                Seq::<u8>::empty()
            } else {
                str_field(bb)
            });
            let rec = varint_bytes(rank) + rest;
            record_at(before + rec + after, before.len() as int, grammar_len) == Some(
                RecordModel {
                    id: rank as int,
                    flags: flags_byte(f),
                    reading: (f.2, rb),
                    pron: if f.1 { None } else { Some((f.3, pb)) },
                    base: if f.0 { None } else { Some((false, bb)) },
                    end: (before.len() + rec.len()) as int,
                },
            )
        }),
{
    let flags = flags_byte(f);
    let pr_part = if f.1 { Seq::<u8>::empty() } else { str_field(pb) };
    let bs_part = if f.0 { Seq::<u8>::empty() } else { str_field(bb) };
    let rest = seq![flags] + str_field(rb) + pr_part + bs_part;
    let v = varint_bytes(rank);
    let rec = v + rest;
    let b = before + rec + after;
    lemma_varint_roundtrip(before, rank, rest + after);
    assert(b =~= before + v + (rest + after));
    let p1 = (before.len() + v.len()) as int;
    assert(b[p1] == flags);
    lemma_flag_bits(f);
    let pre1 = before + v + seq![flags];
    assert(b =~= pre1 + str_field(rb) + (pr_part + bs_part + after));
    lemma_str_field_at(pre1, rb, f.2, pr_part + bs_part + after);
    let pre2 = pre1 + str_field(rb);
    if !f.1 {
        assert(b =~= pre2 + str_field(pb) + (bs_part + after));
        lemma_str_field_at(pre2, pb, f.3, bs_part + after);
    }
    let pre3 = pre2 + pr_part;
    if !f.0 {
        assert(b =~= pre3 + str_field(bb) + after);
        lemma_str_field_at(pre3, bb, false, after);
    }
    assert(pre3.len() + bs_part.len() == before.len() + rec.len());
}

/// Decoding a final record gives back what was interned: the grammar rank, the flags, and the
/// stored reading, pronunciation (unless it is the reading) and base form (unless it is the
/// surface), with the record's end.
pub proof fn lemma_record_roundtrip(i: FeatureInput, rank: u32, grammar_len: int, before: Seq<u8>, after: Seq<u8>)
    requires
        input_fits(i),
        rank < grammar_len,
    ensures
        ({
            let rec = varint_bytes(rank) + record_key(i).skip(6);
            record_at(before + rec + after, before.len() as int, grammar_len) == Some(
                input_model(i, rank as int, (before.len() + rec.len()) as int),
            )
        }),
{
    let f = input_flags(i);
    let rb = stored_bytes(i.reading, f.2);
    let pb = stored_bytes(i.pronunciation, f.3);
    let bb = i.base_form.spec_bytes();
    let pr_part = if f.1 { Seq::<u8>::empty() } else { str_field(pb) };
    let bs_part = if f.0 { Seq::<u8>::empty() } else { str_field(bb) };
    assert(record_key(i).skip(6) =~= seq![flags_byte(f)] + str_field(rb) + pr_part + bs_part);
    vstd::utf8::encode_utf8_valid_utf8(i.reading@);
    vstd::utf8::encode_utf8_valid_utf8(i.pronunciation@);
    vstd::utf8::encode_utf8_valid_utf8(i.base_form@);
    if f.2 {
        lemma_kana_bytes_small(i.reading@);
    }
    if f.3 {
        lemma_kana_bytes_small(i.pronunciation@);
    }
    let pb2 = if f.1 { Seq::<u8>::empty() } else { pb };
    let bb2 = if f.0 { Seq::<u8>::empty() } else { bb };
    lemma_parts_roundtrip(before, rank, grammar_len, f, rb, pb2, bb2, after);
}

proof fn lemma_encoded_prefix(rs: Seq<Seq<u8>>, ks: Seq<int>, a: int, b: int)
    requires
        0 <= a <= b,
    ensures
        encoded(rs, ks, a).len() <= encoded(rs, ks, b).len(),
        encoded(rs, ks, b).take(encoded(rs, ks, a).len() as int) == encoded(rs, ks, a),
    decreases b - a,
{
    if a < b {
        lemma_encoded_prefix(rs, ks, a, b - 1);
        assert(encoded(rs, ks, b).take(encoded(rs, ks, a).len() as int) =~= encoded(rs, ks, b - 1).take(
            encoded(rs, ks, a).len() as int,
        ));
    } else {
        assert(encoded(rs, ks, b).take(encoded(rs, ks, a).len() as int) =~= encoded(rs, ks, a));
    }
}

/// Each final record of a finished table decodes back into the input it was interned from,
/// with its grammar's rank.
pub proof fn lemma_table_roundtrip(rs: Seq<Seq<u8>>, ks: Seq<int>, blob: Seq<u8>, i: int, inp: FeatureInput)
    requires
        is_grammar_ranking(ks, rs),
        ks.len() <= u32::MAX,
        blob == encoded(rs, ks, rs.len() as int),
        0 <= i < rs.len(),
        rs[i] == record_key(inp),
        input_fits(inp),
    ensures
        record_at(blob, encoded(rs, ks, i).len() as int, ks.len() as int) == Some(
            input_model(inp, ks.index_of(record_grammar(rs[i])), encoded(rs, ks, i + 1).len() as int),
        ),
{
    let g = record_grammar(rs[i]);
    assert(ks.contains(g));
    let r = ks.index_of(g);
    assert(0 <= r < ks.len() && ks[r] == g);
    let rank = r as u32;
    let pre = encoded(rs, ks, i);
    let rec = varint_bytes(rank) + rs[i].skip(6);
    assert(encoded(rs, ks, i + 1) == pre + rec);
    lemma_encoded_prefix(rs, ks, i + 1, rs.len() as int);
    let after = blob.skip((pre.len() + rec.len()) as int);
    assert(blob =~= pre + rec + after);
    lemma_record_roundtrip(inp, rank, ks.len() as int, pre, after);
}

} // verus!
