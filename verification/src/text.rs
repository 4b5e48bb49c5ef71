//! Text positions: the characters of a string and the byte offset of each of them.

use vstd::prelude::*;
use vstd::utf8::*;
use vstd::std_specs::iter::IteratorSpec;
use vstd::string::StringSliceAdditionalSpecFns;
use vstd::string::StringExecFns;

verus! {

broadcast use vstd::string::group_string_axioms;

/// Byte offset of the `k`-th character of `s` in its UTF-8 encoding.
pub open spec fn byte_pos(s: Seq<char>, k: int) -> int {
    encode_utf8(s.take(k)).len() as int
}

/// UTF-8 length of one character.
pub open spec fn char_width(c: char) -> int {
    encode_scalar(c as u32).len() as int
}

pub proof fn lemma_encode_utf8_concat(a: Seq<char>, b: Seq<char>)
    ensures
        encode_utf8(a + b) == encode_utf8(a) + encode_utf8(b),
    decreases a.len(),
{
    if a.len() == 0 {
        assert(a + b =~= b);
        assert(encode_utf8(a) =~= Seq::<u8>::empty());
        assert(encode_utf8(a) + encode_utf8(b) =~= encode_utf8(b));
    } else {
        lemma_encode_utf8_concat(a.drop_first(), b);
        assert((a + b).drop_first() =~= a.drop_first() + b);
        assert((a + b)[0] == a[0]);
    }
}

pub proof fn lemma_byte_pos_step(s: Seq<char>, k: int)
    requires
        0 <= k < s.len(),
    ensures
        byte_pos(s, k + 1) == byte_pos(s, k) + char_width(s[k]),
{
    assert(s.take(k + 1) =~= s.take(k) + seq![s[k]]);
    lemma_encode_utf8_concat(s.take(k), seq![s[k]]);
    assert(seq![s[k]].drop_first() =~= Seq::<char>::empty());
    assert(encode_utf8(Seq::<char>::empty()) =~= Seq::<u8>::empty());
    assert(encode_utf8(seq![s[k]]) =~= encode_scalar(s[k] as u32));
}

pub proof fn lemma_byte_pos_full(s: Seq<char>)
    ensures
        byte_pos(s, s.len() as int) == encode_utf8(s).len(),
{
    assert(s.take(s.len() as int) =~= s);
}

/// Byte length of the UTF-8 encoding of a character.
pub fn char_len(c: char) -> (n: usize)
    ensures
        n == char_width(c),
        1 <= n <= 4,
{
    let cp = c as u32;
    if cp < 0x80 {
        1
    } else if cp < 0x800 {
        2
    } else if cp < 0x10000 {
        3
    } else {
        4
    }
}

/// The characters of `text` and the byte offset of each of them (followed by the length of `text`).
pub fn chars_and_offsets(text: &str) -> (res: (Vec<char>, Vec<usize>))
    ensures
        res.0@ == text@,
        res.1@.len() == text@.len() + 1,
        forall|k: int| 0 <= k <= text@.len() ==> #[trigger] res.1@[k] == byte_pos(text@, k),
        res.1@[text@.len() as int] == text.spec_bytes().len(),
{
    let total = text.as_bytes().len();
    let mut it = text.chars();
    let mut cs: Vec<char> = Vec::new();
    let mut offs: Vec<usize> = Vec::new();
    let mut pos: usize = 0;
    let ghost s = text@;
    proof {
        lemma_byte_pos_full(s);
        assert(s.take(0) =~= Seq::<char>::empty());
        assert(encode_utf8(Seq::<char>::empty()) =~= Seq::<u8>::empty());
    }
    loop
        invariant
            it.remaining() == s.skip(cs@.len() as int),
            cs@ == s.take(cs@.len() as int),
            cs@.len() <= s.len(),
            offs@.len() == cs@.len(),
            pos == byte_pos(s, cs@.len() as int),
            forall|k: int| 0 <= k < offs@.len() ==> #[trigger] offs@[k] == byte_pos(s, k),
            byte_pos(s, s.len() as int) == text.spec_bytes().len(),
            text.spec_bytes().len() == total,
            s == text@,
        ensures
            cs@.len() == s.len(),
        decreases s.len() - cs@.len(),
    {
        let ghost n = cs@.len() as int;
        match it.next() {
            Some(c) => {
                proof {
                    assert(s.skip(n).len() > 0);
                    assert(c == s[n]);
                    lemma_byte_pos_step(s, n);
                    lemma_byte_pos_mono(s, n + 1, s.len() as int);
                }
                offs.push(pos);
                cs.push(c);
                pos = pos + char_len(c);
                proof {
                    assert(cs@ =~= s.take(n + 1));
                    assert(it.remaining() =~= s.skip(n + 1));
                }
            }
            None => {
                proof {
                    assert(s.skip(n).len() == 0);
                }
                break;
            }
        }
    }
    offs.push(pos);
    proof {
        assert(cs@ =~= s);
    }
    (cs, offs)
}

pub proof fn lemma_byte_pos_mono(s: Seq<char>, i: int, j: int)
    requires
        0 <= i <= j <= s.len(),
    ensures
        byte_pos(s, i) <= byte_pos(s, j),
    decreases j - i,
{
    if i < j {
        lemma_byte_pos_step(s, j - 1);
        lemma_byte_pos_mono(s, i, j - 1);
    }
}

pub proof fn lemma_byte_pos_strict(s: Seq<char>, i: int, j: int)
    requires
        0 <= i < j <= s.len(),
    ensures
        byte_pos(s, i) < byte_pos(s, j),
{
    lemma_byte_pos_step(s, j - 1);
    lemma_byte_pos_mono(s, i, j - 1);
    assert(char_width(s[j - 1]) >= 1);
}

/// Whether two strings hold the same characters.
pub fn str_eq(a: &str, b: &str) -> (r: bool)
    ensures
        r == (a@ == b@),
{
    a.to_owned() == b.to_owned()
}

/// `a` followed by `b` as a new string.
pub(crate) fn concat(a: &str, b: &str) -> (r: String)
    ensures
        r@ == a@ + b@,
{
    let mut s = a.to_owned();
    s.append(b);
    s
}

/// The bytes as an owned string when they are valid UTF-8.
pub(crate) fn utf8_string(bytes: &[u8]) -> (r: Option<String>)
    ensures
        r is Some <==> valid_utf8(bytes@),
        r matches Some(s) ==> s@ == decode_utf8(bytes@),
{
    match utf8_str(bytes) {
        Some(s) => Some(s.to_owned()),
        None => None,
    }
}

/// The bytes as a string slice when they are valid UTF-8 (`std::str::from_utf8`).
#[verifier::external_body]
pub(crate) fn utf8_str(bytes: &[u8]) -> (r: Option<&str>)
    ensures
        r is Some <==> valid_utf8(bytes@),
        r matches Some(s) ==> s@ == decode_utf8(bytes@),
{
    match std::str::from_utf8(bytes) {
        Ok(s) => Some(s),
        Err(_) => None,
    }
}

/// A string of the given characters (`String::from_iter`).
#[verifier::external_body]
pub(crate) fn string_of(cs: &[char]) -> (r: String)
    ensures
        r@ == cs@,
{
    cs.iter().collect()
}

/// `char::from_u32`: the character with code point `v`, or `None` where `v` is a surrogate or
/// above `U+10FFFF`.
#[verifier::external_body]
pub(crate) fn char_from_u32(v: u32) -> (r: Option<char>)
    ensures
        r matches Some(c) ==> c as u32 == v,
        r is Some <==> (v < 0xD800 || (0xE000 <= v && v <= 0x10FFFF)),
{
    char::from_u32(v)
}

/// The character `U+30A0 + b` for a packed katakana byte `b` (always one: at most U+319F).
pub fn kana_char(b: u8) -> (r: char)
    ensures
        r as u32 == 0x30A0 + b,
{
    match char_from_u32(0x30A0 + b as u32) {
        Some(c) => c,
        None => '\u{FFFD}',
    }
}

} // verus!
