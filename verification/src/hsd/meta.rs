//! Dictionary metadata (the META section): UTF-8 `key=value` lines separated by `\n`. Each line
//! splits at its first `=`; keys are `[a-z0-9_]+`, values hold no line break. `name` and
//! `pos_scheme` (`ipadic` / `unidic`) are required; keys appear once; unknown keys are kept. At
//! most 64 KiB in all.

use vstd::prelude::*;
use vstd::utf8::*;
use vstd::string::StringSliceAdditionalSpecFns;
use crate::le::push_bytes;
use crate::text::{chars_and_offsets, concat, utf8_string};
use super::DictError;

verus! {

broadcast use vstd::string::group_string_axioms;

/// Longest metadata in bytes.
pub const MAX_META_LEN: usize = 65536;

pub const KEY_NAME: &'static str = "name";
pub const KEY_POS_SCHEME: &'static str = "pos_scheme";
pub const KEY_HASAMI_VERSION: &'static str = "hasami_version";
pub const KEY_SOURCES: &'static str = "sources";
pub const KEY_REPAIRS: &'static str = "repairs";
pub const KEY_PRUNED_DOMINATED: &'static str = "pruned_dominated";
/// Marks a dictionary built without matrix.def (a zero matrix over the context ids in use)
pub const KEY_ZERO_MATRIX: &'static str = "zero_matrix";

/// Part-of-speech scheme of a dictionary.
#[derive(Clone, Copy, Debug, PartialEq, Eq, Structural)]
pub enum PosScheme {
    Ipadic,
    Unidic,
}

pub open spec fn scheme_name(p: PosScheme) -> Seq<char> {
    match p {
        PosScheme::Ipadic => "ipadic"@,
        PosScheme::Unidic => "unidic"@,
    }
}

pub open spec fn scheme_of(s: Seq<char>) -> Option<PosScheme> {
    if s == "ipadic"@ {
        Some(PosScheme::Ipadic)
    } else if s == "unidic"@ {
        Some(PosScheme::Unidic)
    } else {
        None
    }
}

impl PosScheme {
    pub fn as_str(self) -> (r: &'static str)
        ensures
            r@ == scheme_name(self),
    {
        match self {
            PosScheme::Ipadic => "ipadic",
            PosScheme::Unidic => "unidic",
        }
    }

    pub fn parse(s: &str) -> (r: Option<PosScheme>)
        ensures
            r == scheme_of(s@),
    {
        let o = s.to_owned();
        if o == "ipadic".to_owned() {
            Some(PosScheme::Ipadic)
        } else if o == "unidic".to_owned() {
            Some(PosScheme::Unidic)
        } else {
            None
        }
    }
}

pub type MetaEntries = Seq<(Seq<char>, Seq<char>)>;

/// Index of the entry with key `k` (keys appear once; the first if not), -1 if there is none.
pub open spec fn key_index(es: MetaEntries, k: Seq<char>) -> int {
    if exists|i: int| 0 <= i < es.len() && (#[trigger] es[i]).0 == k && forall|j: int| 0 <= j < i ==> es[j].0 != k {
        choose|i: int| 0 <= i < es.len() && (#[trigger] es[i]).0 == k && forall|j: int| 0 <= j < i ==> es[j].0 != k
    } else {
        -1
    }
}

proof fn lemma_key_index(es: MetaEntries, k: Seq<char>, i: int)
    requires
        (0 <= i < es.len() && es[i].0 == k && forall|j: int| 0 <= j < i ==> es[j].0 != k) || (i == -1
            && forall|j: int| 0 <= j < es.len() ==> es[j].0 != k),
    ensures
        key_index(es, k) == i,
{
    if i >= 0 {
        let c = choose|c: int| 0 <= c < es.len() && (#[trigger] es[c]).0 == k && forall|j: int| 0 <= j < c ==> es[j].0 != k;
        assert(es[i].0 == k);
        if c < i {
            assert(es[c].0 != k);
        }
        if i < c {
            assert(es[i].0 != k);
        }
    }
}

/// The value of key `k`, if there is one.
pub open spec fn value_of(es: MetaEntries, k: Seq<char>) -> Option<Seq<char>> {
    if key_index(es, k) >= 0 {
        Some(es[key_index(es, k)].1)
    } else {
        None
    }
}

pub open spec fn is_key_char(c: char) -> bool {
    ('a' <= c <= 'z') || ('0' <= c <= '9') || c == '_'
}

pub open spec fn valid_key(k: Seq<char>) -> bool {
    k.len() > 0 && forall|i: int| 0 <= i < k.len() ==> is_key_char(#[trigger] k[i])
}

/// `set` accepts the key and value: a valid key, no line break in the value, and a known scheme
/// for `pos_scheme`.
pub open spec fn set_allowed(k: Seq<char>, v: Seq<char>) -> bool {
    &&& valid_key(k)
    &&& !v.contains('\n')
    &&& !v.contains('\r')
    &&& (k == "pos_scheme"@ ==> scheme_of(v) is Some)
}

/// The entries after setting `k` to `v`: replaced in place, or added at the end.
pub open spec fn meta_set(es: MetaEntries, k: Seq<char>, v: Seq<char>) -> MetaEntries {
    if key_index(es, k) >= 0 {
        es.update(key_index(es, k), (k, v))
    } else {
        es.push((k, v))
    }
}

/// The entries without key `k`.
pub open spec fn without_key(es: MetaEntries, k: Seq<char>) -> MetaEntries
    decreases es.len(),
{
    if es.len() == 0 {
        es
    } else {
        without_key(es.drop_last(), k) + if es.last().0 != k {
            seq![es.last()]
        } else {
            Seq::empty()
        }
    }
}

/// The bytes of the entries: `key=value\n` per entry.
pub open spec fn meta_bytes(es: MetaEntries) -> Seq<u8>
    decreases es.len(),
{
    if es.len() == 0 {
        Seq::empty()
    } else {
        meta_bytes(es.drop_last()) + encode_utf8(es.last().0) + seq![0x3Du8] + encode_utf8(es.last().1)
            + seq![0x0Au8]
    }
}

/// First index of byte `x` in `s`, -1 if there is none.
pub open spec fn index_of(s: Seq<u8>, x: u8) -> int
    decreases s.len(),
{
    if s.len() == 0 {
        -1
    } else if s[0] == x {
        0
    } else {
        let j = index_of(s.drop_first(), x);
        if j < 0 {
            -1
        } else {
            j + 1
        }
    }
}

pub proof fn lemma_index_of(s: Seq<u8>, x: u8)
    ensures
        -1 <= index_of(s, x) < s.len(),
        index_of(s, x) >= 0 ==> s[index_of(s, x)] == x,
        forall|j: int| 0 <= j < index_of(s, x) ==> s[j] != x,
        index_of(s, x) < 0 ==> forall|j: int| 0 <= j < s.len() ==> s[j] != x,
    decreases s.len(),
{
    if s.len() > 0 && s[0] != x {
        lemma_index_of(s.drop_first(), x);
        assert forall|j: int| 0 < j < s.len() implies s[j] == s.drop_first()[j - 1] by {}
    }
}

proof fn lemma_index_of_is(s: Seq<u8>, x: u8, i: int)
    requires
        (0 <= i < s.len() && s[i] == x && forall|j: int| 0 <= j < i ==> s[j] != x) || (i == -1 && forall|j: int|
            0 <= j < s.len() ==> s[j] != x),
    ensures
        index_of(s, x) == i,
{
    lemma_index_of(s, x);
    let k = index_of(s, x);
    if k >= 0 && i >= 0 {
        if k < i {
            assert(s[k] != x);
        }
        if i < k {
            assert(s[i] != x);
        }
    } else if k >= 0 {
        assert(s[k] != x);
    } else if i >= 0 {
        assert(s[i] != x);
    }
}

/// The text split at each `\n`.
pub open spec fn split_lines(s: Seq<u8>) -> Seq<Seq<u8>>
    decreases s.len(),
{
    let i = index_of(s, 0x0A);
    if i < 0 {
        seq![s]
    } else {
        proof {
            lemma_index_of(s, 0x0Au8);
        }
        seq![s.take(i)] + split_lines(s.skip(i + 1))
    }
}

/// The lines of the metadata (a final `\n` ends the last line; no text, no lines).
pub open spec fn meta_lines(b: Seq<u8>) -> Seq<Seq<u8>> {
    if b.len() == 0 {
        Seq::empty()
    } else if b.last() == 0x0A {
        split_lines(b.drop_last())
    } else {
        split_lines(b)
    }
}

pub open spec fn line_key(l: Seq<u8>) -> Seq<u8> {
    l.take(index_of(l, 0x3D))
}

pub open spec fn line_value(l: Seq<u8>) -> Seq<u8> {
    l.skip(index_of(l, 0x3D) + 1)
}

pub open spec fn is_key_byte(x: u8) -> bool {
    (0x61 <= x <= 0x7A) || (0x30 <= x <= 0x39) || x == 0x5F
}

/// A line that reads as an entry: it has `=`, a valid key, no `\r` in the value, and UTF-8 on
/// both sides.
pub open spec fn line_ok(l: Seq<u8>) -> bool {
    &&& index_of(l, 0x3D) >= 0
    &&& line_key(l).len() > 0
    &&& forall|j: int| 0 <= j < line_key(l).len() ==> is_key_byte(#[trigger] line_key(l)[j])
    &&& index_of(line_value(l), 0x0D) < 0
    &&& valid_utf8(line_key(l))
    &&& valid_utf8(line_value(l))
}

pub open spec fn line_entry(l: Seq<u8>) -> (Seq<char>, Seq<char>) {
    (decode_utf8(line_key(l)), decode_utf8(line_value(l)))
}

/// The entries the lines of `b` hold.
pub open spec fn meta_entries(b: Seq<u8>) -> MetaEntries {
    meta_lines(b).map_values(|l: Seq<u8>| line_entry(l))
}

/// The keys of the entries are distinct.
pub open spec fn keys_distinct(es: MetaEntries) -> bool {
    forall|i: int, j: int| 0 <= i < j < es.len() ==> es[i].0 != es[j].0
}

/// The entries hold `name` and a known `pos_scheme`.
pub open spec fn has_required_keys(es: MetaEntries) -> bool {
    &&& key_index(es, "name"@) >= 0
    &&& key_index(es, "pos_scheme"@) >= 0
    &&& scheme_of(es[key_index(es, "pos_scheme"@)].1) is Some
}

/// `b` is well-formed metadata.
pub open spec fn meta_parses(b: Seq<u8>) -> bool {
    &&& b.len() <= MAX_META_LEN
    &&& valid_utf8(b)
    &&& forall|i: int| 0 <= i < meta_lines(b).len() ==> line_ok(#[trigger] meta_lines(b)[i])
    &&& keys_distinct(meta_entries(b))
    &&& has_required_keys(meta_entries(b))
}

/// Entries that write out and read back: every entry writable, keys distinct, and `name` and a
/// known `pos_scheme` present.
pub open spec fn meta_ok(es: MetaEntries) -> bool {
    &&& forall|i: int| 0 <= i < es.len() ==> entry_writable(#[trigger] es[i])
    &&& keys_distinct(es)
    &&& has_required_keys(es)
}

proof fn lemma_key_index_at(es: MetaEntries, k: Seq<char>, i: int)
    requires
        keys_distinct(es),
        0 <= i < es.len(),
        es[i].0 == k,
    ensures
        key_index(es, k) == i,
{
    lemma_key_index(es, k, i);
}

proof fn lemma_key_index_found(es: MetaEntries, k: Seq<char>)
    requires
        key_index(es, k) >= 0,
    ensures
        0 <= key_index(es, k) < es.len(),
        es[key_index(es, k)].0 == k,
{
}

proof fn lemma_key_index_absent(es: MetaEntries, k: Seq<char>)
    requires
        keys_distinct(es),
        key_index(es, k) < 0,
    ensures
        forall|j: int| 0 <= j < es.len() ==> es[j].0 != k,
{
    assert forall|j: int| 0 <= j < es.len() implies es[j].0 != k by {
        if es[j].0 == k {
            lemma_key_index_at(es, k, j);
        }
    };
}

/// After setting `k` to `v`, `k` reads `v` and every other key reads what it read before.
pub proof fn lemma_set_then_get(es: MetaEntries, k: Seq<char>, v: Seq<char>, other: Seq<char>)
    requires
        other != k,
    ensures
        value_of(meta_set(es, k, v), k) == Some(v),
        value_of(meta_set(es, k, v), other) == value_of(es, other),
{
    let r = meta_set(es, k, v);
    if key_index(es, k) >= 0 {
        let x = key_index(es, k);
        lemma_key_index_found(es, k);
        assert forall|j: int| 0 <= j < x implies r[j].0 != k by {
            if es[j].0 == k {
                assert(es[j].0 == k && forall|q: int| 0 <= q < j ==> es[q].0 != k) by {
                    assert(forall|q: int| 0 <= q < x ==> es[q].0 != k);
                };
            }
        };
        lemma_key_index(r, k, x);
        let y = key_index(es, other);
        if y >= 0 {
            lemma_key_index_found(es, other);
            lemma_key_index(r, other, y);
        } else {
            assert forall|j: int| 0 <= j < r.len() implies r[j].0 != other by {
                if j != x && es[j].0 == other {
                    lemma_first_occurrence(es, other, j);
                }
            };
            lemma_key_index(r, other, -1);
        }
    } else {
        assert forall|j: int| 0 <= j < es.len() implies es[j].0 != k by {
            if es[j].0 == k {
                lemma_first_occurrence(es, k, j);
            }
        };
        lemma_key_index(r, k, es.len() as int);
        let y = key_index(es, other);
        if y >= 0 {
            lemma_key_index_found(es, other);
            lemma_key_index(r, other, y);
        } else {
            assert forall|j: int| 0 <= j < r.len() implies r[j].0 != other by {
                if j < es.len() && es[j].0 == other {
                    lemma_first_occurrence(es, other, j);
                }
            };
            lemma_key_index(r, other, -1);
        }
    }
}

/// A key that occurs somewhere has a first occurrence.
proof fn lemma_first_occurrence(es: MetaEntries, k: Seq<char>, j: int)
    requires
        0 <= j < es.len(),
        es[j].0 == k,
    ensures
        key_index(es, k) >= 0,
    decreases j,
{
    if exists|q: int| 0 <= q < j && es[q].0 == k {
        let q = choose|q: int| 0 <= q < j && es[q].0 == k;
        lemma_first_occurrence(es, k, q);
    } else {
        assert(0 <= j < es.len() && es[j].0 == k && forall|q: int| 0 <= q < j ==> es[q].0 != k);
    }
}

/// Setting an allowed key keeps the entries writable and readable back.
proof fn lemma_set_keeps_ok(es: MetaEntries, k: Seq<char>, v: Seq<char>)
    requires
        meta_ok(es),
        set_allowed(k, v),
    ensures
        meta_ok(meta_set(es, k, v)),
{
    let r = meta_set(es, k, v);
    let ni = key_index(es, "name"@);
    let pi = key_index(es, "pos_scheme"@);
    lemma_key_index_found(es, "name"@);
    lemma_key_index_found(es, "pos_scheme"@);
    if key_index(es, k) >= 0 {
        let x = key_index(es, k);
        lemma_key_index_found(es, k);
        assert(keys_distinct(r));
        lemma_key_index_at(r, "name"@, ni);
        lemma_key_index_at(r, "pos_scheme"@, pi);
    } else {
        lemma_key_index_absent(es, k);
        assert(keys_distinct(r));
        lemma_key_index_at(r, "name"@, ni);
        lemma_key_index_at(r, "pos_scheme"@, pi);
    }
}

/// What dropping a key keeps: only entries of `es` without that key, all of them, and distinct
/// keys stay distinct.
proof fn lemma_without_key(es: MetaEntries, k: Seq<char>)
    ensures
        forall|j: int| 0 <= j < without_key(es, k).len() ==> es.contains(#[trigger] without_key(es, k)[j]) && without_key(es, k)[j].0 != k,
        forall|i: int| 0 <= i < es.len() && es[i].0 != k ==> without_key(es, k).contains(#[trigger] es[i]),
        keys_distinct(es) ==> keys_distinct(without_key(es, k)),
    decreases es.len(),
{
    if es.len() > 0 {
        let d = es.drop_last();
        lemma_without_key(d, k);
        let w = without_key(d, k);
        let r = without_key(es, k);
        assert forall|j: int| 0 <= j < r.len() implies es.contains(#[trigger] r[j]) && r[j].0 != k by {
            if j < w.len() {
                assert(r[j] == w[j]);
                let q = choose|q: int| 0 <= q < d.len() && d[q] == w[j];
                assert(es[q] == d[q]);
            } else {
                assert(r[j] == es.last());
                assert(es[es.len() - 1] == es.last());
            }
        };
        assert forall|i: int| 0 <= i < es.len() && es[i].0 != k implies r.contains(#[trigger] es[i]) by {
            if i < es.len() - 1 {
                assert(d[i] == es[i]);
                let q = choose|q: int| 0 <= q < w.len() && w[q] == d[i];
                assert(r[q] == w[q]);
            } else {
                assert(r[r.len() - 1] == es.last());
            }
        };
        if keys_distinct(es) {
            assert(keys_distinct(d));
            assert forall|i: int, j: int| 0 <= i < j < r.len() implies r[i].0 != r[j].0 by {
                if j < w.len() {
                    assert(r[i] == w[i] && r[j] == w[j]);
                } else {
                    assert(r[j] == es.last());
                    assert(r[i] == w[i]);
                    let q = choose|q: int| 0 <= q < d.len() && d[q] == w[i];
                    assert(es[q] == d[q]);
                    assert(es[es.len() - 1] == es.last());
                }
            };
        }
    }
}

/// Dropping a key other than `name` and `pos_scheme` keeps the entries writable and readable back.
proof fn lemma_remove_keeps_ok(es: MetaEntries, k: Seq<char>)
    requires
        meta_ok(es),
        k != "name"@,
        k != "pos_scheme"@,
    ensures
        meta_ok(without_key(es, k)),
{
    let r = without_key(es, k);
    lemma_without_key(es, k);
    assert forall|j: int| 0 <= j < r.len() implies entry_writable(#[trigger] r[j]) by {
        let q = choose|q: int| 0 <= q < es.len() && es[q] == r[j];
    };
    let ni = key_index(es, "name"@);
    let pi = key_index(es, "pos_scheme"@);
    lemma_key_index_found(es, "name"@);
    lemma_key_index_found(es, "pos_scheme"@);
    assert(r.contains(es[ni]));
    assert(r.contains(es[pi]));
    let rn = choose|q: int| 0 <= q < r.len() && r[q] == es[ni];
    let rp = choose|q: int| 0 <= q < r.len() && r[q] == es[pi];
    lemma_key_index_at(r, "name"@, rn);
    lemma_key_index_at(r, "pos_scheme"@, rp);
}

/// Metadata, in the order written.
#[derive(Clone, Debug, PartialEq, Eq)]
pub struct Meta {
    entries: Vec<(String, String)>,
}

impl View for Meta {
    type V = MetaEntries;

    closed spec fn view(&self) -> MetaEntries {
        Seq::new(self.entries@.len(), |i: int| (self.entries@[i].0@, self.entries@[i].1@))
    }
}

fn is_valid_key(key: &str) -> (r: bool)
    ensures
        r == valid_key(key@),
{
    let (cs, _) = chars_and_offsets(key);
    if cs.len() == 0 {
        return false;
    }
    let mut i: usize = 0;
    while i < cs.len()
        invariant
            i <= cs@.len(),
            cs@ == key@,
            forall|j: int| 0 <= j < i ==> is_key_char(#[trigger] cs@[j]),
        decreases cs@.len() - i,
    {
        let c = cs[i];
        if !(('a' <= c && c <= 'z') || ('0' <= c && c <= '9') || c == '_') {
            return false;
        }
        i = i + 1;
    }
    true
}

fn has_line_break(v: &str) -> (r: bool)
    ensures
        r == (v@.contains('\n') || v@.contains('\r')),
{
    let (cs, _) = chars_and_offsets(v);
    let mut i: usize = 0;
    while i < cs.len()
        invariant
            i <= cs@.len(),
            cs@ == v@,
            forall|j: int| 0 <= j < i ==> cs@[j] != '\n' && cs@[j] != '\r',
        decreases cs@.len() - i,
    {
        if cs[i] == '\n' || cs[i] == '\r' {
            return true;
        }
        i = i + 1;
    }
    false
}

impl Meta {
    /// Metadata with the required keys only.
    pub fn new(name: &str, pos_scheme: PosScheme) -> (m: Meta)
        ensures
            m@ == seq![("name"@, name@), ("pos_scheme"@, scheme_name(pos_scheme))],
            !name@.contains('\n') && !name@.contains('\r') ==> meta_ok(m@),
    {
        let mut entries: Vec<(String, String)> = Vec::new();
        entries.push(("name".to_owned(), name.to_owned()));
        entries.push(("pos_scheme".to_owned(), pos_scheme.as_str().to_owned()));
        let m = Meta { entries };
        assert(m@ =~= seq![("name"@, name@), ("pos_scheme"@, scheme_name(pos_scheme))]);
        proof {
            reveal_strlit("name");
            reveal_strlit("pos_scheme");
            reveal_strlit("ipadic");
            reveal_strlit("unidic");
            let es = m@;
            assert(es[0].0 != es[1].0) by {
                assert(es[0].0.len() != es[1].0.len());
            };
            lemma_key_index_at(es, "name"@, 0);
            lemma_key_index_at(es, "pos_scheme"@, 1);
            let sn = scheme_name(pos_scheme);
            assert(!sn.contains('\n') && !sn.contains('\r')) by {
                assert forall|i: int| 0 <= i < sn.len() implies sn[i] != '\n' && sn[i] != '\r' by {
                    assert(is_key_char(sn[i]));
                };
            };
            assert(valid_key("name"@));
            assert(valid_key("pos_scheme"@));
        }
        m
    }

    fn find(&self, key: &str) -> (r: Option<usize>)
        ensures
            r is Some <==> key_index(self@, key@) >= 0,
            r matches Some(i) ==> i == key_index(self@, key@),
    {
        let owned = key.to_owned();
        let mut i: usize = 0;
        while i < self.entries.len()
            invariant
                i <= self.entries@.len(),
                owned@ == key@,
                forall|j: int| 0 <= j < i ==> self@[j].0 != key@,
            decreases self.entries@.len() - i,
        {
            if self.entries[i].0 == owned {
                proof {
                    lemma_key_index(self@, key@, i as int);
                }
                return Some(i);
            }
            i = i + 1;
        }
        proof {
            lemma_key_index(self@, key@, -1);
        }
        None
    }

    /// The value of `key`.
    pub fn get(&self, key: &str) -> (r: Option<&str>)
        ensures
            r is Some <==> value_of(self@, key@) is Some,
            r matches Some(v) ==> v@ == value_of(self@, key@)->0,
    {
        match self.find(key) {
            Some(i) => Some(self.entries[i].1.as_str()),
            None => None,
        }
    }

    /// Sets a value (in place if the key is there, else at the end).
    pub fn set(&mut self, key: &str, value: &str) -> (r: Result<(), DictError>)
        ensures
            r is Ok <==> set_allowed(key@, value@),
            r is Ok ==> final(self)@ == meta_set(old(self)@, key@, value@),
            r matches Err(e) ==> final(self)@ == old(self)@ && e is Invalid,
            meta_ok(old(self)@) ==> meta_ok(final(self)@),
    {
        if !is_valid_key(key) {
            let a = concat("invalid metadata key `", key);
            return Err(DictError::Invalid(concat(a.as_str(), "` (use [a-z0-9_]+)")));
        }
        if has_line_break(value) {
            let a = concat("metadata value for `", key);
            return Err(DictError::Invalid(concat(a.as_str(), "` must not contain line breaks")));
        }
        if key.to_owned() == "pos_scheme".to_owned() && PosScheme::parse(value).is_none() {
            let a = concat("pos_scheme must be `ipadic` or `unidic`, not `", value);
            return Err(DictError::Invalid(concat(a.as_str(), "`")));
        }
        let ghost before = self@;
        match self.find(key) {
            Some(i) => {
                self.entries.set(i, (key.to_owned(), value.to_owned()));
                proof {
                    assert(self@ =~= before.update(i as int, (key@, value@)));
                }
            },
            None => {
                self.entries.push((key.to_owned(), value.to_owned()));
                proof {
                    assert(self@ =~= before.push((key@, value@)));
                }
            },
        }
        proof {
            if meta_ok(before) {
                lemma_set_keeps_ok(before, key@, value@);
            }
        }
        Ok(())
    }

    /// Removes a key (`name` and `pos_scheme` stay).
    pub fn remove(&mut self, key: &str)
        ensures
            key@ == "name"@ || key@ == "pos_scheme"@ ==> final(self)@ == old(self)@,
            !(key@ == "name"@ || key@ == "pos_scheme"@) ==> final(self)@ == without_key(old(self)@, key@),
            meta_ok(old(self)@) ==> meta_ok(final(self)@),
    {
        let owned = key.to_owned();
        if owned == "name".to_owned() || owned == "pos_scheme".to_owned() {
            return;
        }
        let ghost es = self@;
        let mut kept: Vec<(String, String)> = Vec::new();
        let mut i: usize = 0;
        while i < self.entries.len()
            invariant
                i <= self.entries@.len(),
                owned@ == key@,
                es == self@,
                Seq::new(kept@.len(), |j: int| (kept@[j].0@, kept@[j].1@)) == without_key(es.take(i as int), key@),
            decreases self.entries@.len() - i,
        {
            let ghost kv = Seq::new(kept@.len(), |j: int| (kept@[j].0@, kept@[j].1@));
            proof {
                assert(es.take(i + 1).drop_last() =~= es.take(i as int));
            }
            if !(self.entries[i].0 == owned) {
                let k = self.entries[i].0.clone();
                let v = self.entries[i].1.clone();
                kept.push((k, v));
                proof {
                    assert(Seq::new(kept@.len(), |j: int| (kept@[j].0@, kept@[j].1@)) =~= kv.push(es[i as int]));
                }
            } else {
                proof {
                    assert(Seq::new(kept@.len(), |j: int| (kept@[j].0@, kept@[j].1@)) =~= kv);
                }
            }
            i = i + 1;
        }
        proof {
            assert(es.take(es.len() as int) =~= es);
            if meta_ok(es) {
                lemma_remove_keeps_ok(es, key@);
            }
        }
        self.entries = kept;
    }

    /// The value of `name` (empty if missing).
    pub fn name(&self) -> (r: &str)
        ensures
            value_of(self@, "name"@) matches Some(v) ==> r@ == v,
            value_of(self@, "name"@) is None ==> r@ == Seq::<char>::empty(),
    {
        match self.get("name") {
            Some(v) => v,
            None => {
                proof {
                    reveal_strlit("");
                }
                ""
            },
        }
    }

    /// The part-of-speech scheme (`ipadic` if missing or unknown).
    pub fn pos_scheme(&self) -> (r: PosScheme)
        ensures
            r == match value_of(self@, "pos_scheme"@) {
                Some(v) => match scheme_of(v) {
                    Some(p) => p,
                    None => PosScheme::Ipadic,
                },
                None => PosScheme::Ipadic,
            },
    {
        match self.get("pos_scheme") {
            Some(v) => match PosScheme::parse(v) {
                Some(p) => p,
                None => PosScheme::Ipadic,
            },
            None => PosScheme::Ipadic,
        }
    }

    /// The entries in order.
    pub fn iter(&self) -> (r: Vec<(&str, &str)>)
        ensures
            r@.len() == self@.len(),
            forall|i: int| 0 <= i < r@.len() ==> (#[trigger] r@[i]).0@ == self@[i].0 && r@[i].1@ == self@[i].1,
    {
        let mut r: Vec<(&str, &str)> = Vec::new();
        let mut i: usize = 0;
        while i < self.entries.len()
            invariant
                i <= self.entries@.len(),
                r@.len() == i,
                forall|j: int| 0 <= j < i ==> (#[trigger] r@[j]).0@ == self@[j].0 && r@[j].1@ == self@[j].1,
            decreases self.entries@.len() - i,
        {
            r.push((self.entries[i].0.as_str(), self.entries[i].1.as_str()));
            i = i + 1;
        }
        r
    }

    /// The bytes of the section (`key=value\n` per entry); at most [`MAX_META_LEN`].
    pub fn to_bytes(&self) -> (r: Result<Vec<u8>, DictError>)
        ensures
            r is Ok <==> meta_bytes(self@).len() <= MAX_META_LEN,
            r matches Ok(b) ==> b@ == meta_bytes(self@),
            r matches Err(e) ==> e is Invalid,
    {
        let ghost es = self@;
        let mut out: Vec<u8> = Vec::new();
        let mut i: usize = 0;
        while i < self.entries.len()
            invariant
                i <= self.entries@.len(),
                es == self@,
                out@ == meta_bytes(es.take(i as int)),
            decreases self.entries@.len() - i,
        {
            push_bytes(&mut out, self.entries[i].0.as_str().as_bytes());
            out.push(0x3D);
            push_bytes(&mut out, self.entries[i].1.as_str().as_bytes());
            out.push(0x0A);
            proof {
                assert(es.take(i + 1).drop_last() =~= es.take(i as int));
                assert(out@ =~= meta_bytes(es.take(i + 1)));
            }
            i = i + 1;
        }
        proof {
            assert(es.take(es.len() as int) =~= es);
        }
        if out.len() > MAX_META_LEN {
            return Err(DictError::Invalid("metadata is larger than the 64 KiB limit".to_owned()));
        }
        Ok(out)
    }

    /// Reads and checks the section. Every failure is [`DictError::Corrupt`].
    pub fn parse(bytes: &[u8]) -> (r: Result<Meta, DictError>)
        ensures
            r is Ok <==> meta_parses(bytes@),
            r matches Ok(m) ==> m@ == meta_entries(bytes@),
            r matches Err(e) ==> e is Corrupt,
    {
        let n = bytes.len();
        if n > MAX_META_LEN {
            return Err(DictError::Corrupt("META: the section exceeds the size limit".to_owned()));
        }
        if utf8_string(bytes).is_none() {
            return Err(DictError::Corrupt("META: not valid UTF-8".to_owned()));
        }
        let ghost b = bytes@;
        let mut entries: Vec<(String, String)> = Vec::new();
        if n > 0 {
            let end = if bytes[n - 1] == 0x0A {
                n - 1
            } else {
                n
            };
            let ghost body = b.take(end as int);
            proof {
                if bytes[n - 1] == 0x0A {
                    assert(body =~= b.drop_last());
                } else {
                    assert(body =~= b);
                }
                assert(meta_lines(b) == split_lines(body));
            }
            let mut s: usize = 0;
            let ghost mut done: Seq<Seq<u8>> = Seq::empty();
            proof {
                assert(body.skip(0) =~= body);
                assert(done + split_lines(body.skip(0)) =~= split_lines(body));
                assert(Seq::new(entries@.len(), |j: int| (entries@[j].0@, entries@[j].1@)) =~= done.map_values(
                    |l: Seq<u8>| line_entry(l),
                ));
            }
            loop
                invariant_except_break
                    split_lines(body) == done + split_lines(body.skip(s as int)),
                invariant
                    meta_lines(b) == split_lines(body),
                    n == b.len(),
                    b == bytes@,
                    end <= n,
                    body == b.take(end as int),
                    s <= end,
                    forall|i: int| 0 <= i < done.len() ==> line_ok(#[trigger] done[i]),
                    Seq::new(entries@.len(), |j: int| (entries@[j].0@, entries@[j].1@)) == done.map_values(
                        |l: Seq<u8>| line_entry(l),
                    ),
                    keys_distinct(done.map_values(|l: Seq<u8>| line_entry(l))),
                ensures
                    split_lines(body) == done,
                    forall|i: int| 0 <= i < done.len() ==> line_ok(#[trigger] done[i]),
                    Seq::new(entries@.len(), |j: int| (entries@[j].0@, entries@[j].1@)) == done.map_values(
                        |l: Seq<u8>| line_entry(l),
                    ),
                    keys_distinct(done.map_values(|l: Seq<u8>| line_entry(l))),
                decreases end - s,
            {
                let ghost rest = body.skip(s as int);
                let mut e = s;
                while e < end && bytes[e] != 0x0A
                    invariant
                        s <= e <= end <= n,
                        b == bytes@,
                        n == b.len(),
                        forall|j: int| s <= j < e ==> b[j] != 0x0A,
                    decreases end - e,
                {
                    e = e + 1;
                }
                let ghost line = rest.take(e - s);
                proof {
                    assert(line =~= b.subrange(s as int, e as int));
                    if e < end {
                        lemma_index_of_is(rest, 0x0A, e - s);
                        assert(rest.skip(e - s + 1) =~= body.skip(e + 1));
                    } else {
                        lemma_index_of_is(rest, 0x0A, -1);
                        assert(rest =~= line);
                        assert(split_lines(rest) == seq![rest]);
                    }
                    assert(split_lines(rest)[0] == line);
                }
                // the key runs to the first `=`
                let mut q = s;
                while q < e && bytes[q] != 0x3D
                    invariant
                        s <= q <= e <= end <= n,
                        b == bytes@,
                        n == b.len(),
                        forall|j: int| s <= j < q ==> b[j] != 0x3D,
                    decreases e - q,
                {
                    q = q + 1;
                }
                if q == e {
                    proof {
                        lemma_index_of_is(line, 0x3D, -1);
                        lemma_bad_line(b, body, done, s as int, line);
                    }
                    return Err(DictError::Corrupt("META: a line has no `=`".to_owned()));
                }
                proof {
                    lemma_index_of_is(line, 0x3D, q - s);
                    assert(line_key(line) =~= b.subrange(s as int, q as int));
                    assert(line_value(line) =~= b.subrange(q + 1, e as int));
                }
                let mut k = s;
                while k < q && ((0x61 <= bytes[k] && bytes[k] <= 0x7A) || (0x30 <= bytes[k] && bytes[k] <= 0x39) || bytes[k] == 0x5F)
                    invariant
                        s <= k <= q < e,
                        e <= n,
                        b == bytes@,
                        n == b.len(),
                        forall|j: int| s <= j < k ==> is_key_byte(b[j]),
                    decreases q - k,
                {
                    k = k + 1;
                }
                if k < q || q == s {
                    proof {
                        if k < q {
                            assert(!is_key_byte(line_key(line)[k - s]));
                        }
                        lemma_bad_line(b, body, done, s as int, line);
                    }
                    return Err(DictError::Corrupt("META: a line has an invalid key".to_owned()));
                }
                let mut v = q + 1;
                while v < e && bytes[v] != 0x0D
                    invariant
                        q + 1 <= v <= e,
                        e <= n,
                        b == bytes@,
                        n == b.len(),
                        forall|j: int| q + 1 <= j < v ==> b[j] != 0x0D,
                    decreases e - v,
                {
                    v = v + 1;
                }
                if v < e {
                    proof {
                        lemma_index_of(line_value(line), 0x0D);
                        assert(line_value(line)[v - q - 1] == 0x0D);
                        lemma_bad_line(b, body, done, s as int, line);
                    }
                    return Err(DictError::Corrupt("META: a line contains a carriage return".to_owned()));
                }
                proof {
                    lemma_index_of_is(line_value(line), 0x0D, -1);
                }
                let key = match utf8_string(vstd::slice::slice_subrange(bytes, s, q)) {
                    Some(x) => x,
                    None => {
                        proof {
                            lemma_bad_line(b, body, done, s as int, line);
                        }
                        return Err(DictError::Corrupt("META: a key is not valid UTF-8".to_owned()));
                    },
                };
                let value = match utf8_string(vstd::slice::slice_subrange(bytes, q + 1, e)) {
                    Some(x) => x,
                    None => {
                        proof {
                            lemma_bad_line(b, body, done, s as int, line);
                        }
                        return Err(DictError::Corrupt("META: a value is not valid UTF-8".to_owned()));
                    },
                };
                let ghost ev = done.map_values(|l: Seq<u8>| line_entry(l));
                proof {
                    assert(line_entry(line) == (key@, value@));
                }
                let mut j: usize = 0;
                while j < entries.len()
                    invariant
                        j <= entries@.len(),
                        Seq::new(entries@.len(), |x: int| (entries@[x].0@, entries@[x].1@)) == ev,
                        ev == done.map_values(|l: Seq<u8>| line_entry(l)),
                        b == bytes@,
                        meta_lines(b) == split_lines(body),
                        s <= body.len(),
                        split_lines(body) == done + split_lines(body.skip(s as int)),
                        split_lines(body.skip(s as int))[0] == line,
                        line_entry(line) == (key@, value@),
                        forall|x: int| 0 <= x < j ==> ev[x].0 != key@,
                    decreases entries@.len() - j,
                {
                    if entries[j].0 == key {
                        proof {
                            assert(Seq::new(entries@.len(), |x: int| (entries@[x].0@, entries@[x].1@)).len() == entries@.len());
                            assert(ev.len() == done.len());
                            assert(ev[j as int] == line_entry(done[j as int]));
                            assert(ev[j as int] == Seq::new(entries@.len(), |x: int| (entries@[x].0@, entries@[x].1@))[j as int]);
                            assert(ev[j as int].0 == key@);
                            lemma_duplicate_key(b, body, done, s as int, line, j as int);
                        }
                        return Err(DictError::Corrupt("META: a key appears twice".to_owned()));
                    }
                    j = j + 1;
                }
                entries.push((key, value));
                proof {
                    let nd = done.push(line);
                    let nev = nd.map_values(|l: Seq<u8>| line_entry(l));
                    assert(nev =~= ev.push(line_entry(line)));
                    assert(Seq::new(entries@.len(), |x: int| (entries@[x].0@, entries@[x].1@)) =~= nev);
                    assert(line_entry(line) == (key@, value@));
                    assert forall|x: int, y: int| 0 <= x < y < nev.len() implies nev[x].0 != nev[y].0 by {
                        if y < ev.len() {
                            assert(nev[x] == ev[x]);
                            assert(nev[y] == ev[y]);
                        } else {
                            assert(nev[x] == ev[x]);
                        }
                    }
                    if e < end {
                        assert(split_lines(rest) == seq![line] + split_lines(rest.skip(e - s + 1)));
                        assert(split_lines(body) =~= nd + split_lines(body.skip(e + 1)));
                    } else {
                        assert(split_lines(body) =~= nd);
                    }
                    done = nd;
                }
                if e == end {
                    break;
                }
                s = e + 1;
            }
        } else {
            proof {
                assert(meta_lines(b) =~= Seq::<Seq<u8>>::empty());
            }
        }
        let m = Meta { entries };
        proof {
            assert(m@ =~= meta_entries(b));
        }
        if m.get("name").is_none() {
            return Err(DictError::Corrupt("META: required key `name` is missing".to_owned()));
        }
        match m.get("pos_scheme") {
            None => {
                return Err(DictError::Corrupt("META: required key `pos_scheme` is missing".to_owned()));
            },
            Some(v) => {
                if PosScheme::parse(v).is_none() {
                    return Err(DictError::Corrupt(concat("META: unknown pos_scheme ", v)));
                }
            },
        }
        Ok(m)
    }
}

/// A line that is not ok makes the metadata fail.
proof fn lemma_bad_line(b: Seq<u8>, body: Seq<u8>, done: Seq<Seq<u8>>, s: int, line: Seq<u8>)
    requires
        meta_lines(b) == split_lines(body),
        0 <= s <= body.len(),
        split_lines(body) == done + split_lines(body.skip(s)),
        split_lines(body.skip(s))[0] == line,
        !line_ok(line),
    ensures
        !meta_parses(b),
{
    lemma_split_lines_nonempty(body.skip(s));
    assert(meta_lines(b)[done.len() as int] == line);
}

proof fn lemma_split_lines_nonempty(s: Seq<u8>)
    ensures
        split_lines(s).len() >= 1,
    decreases s.len(),
{
    lemma_index_of(s, 0x0A);
}

/// A key that repeats an earlier one makes the metadata fail.
proof fn lemma_duplicate_key(b: Seq<u8>, body: Seq<u8>, done: Seq<Seq<u8>>, s: int, line: Seq<u8>, j: int)
    requires
        meta_lines(b) == split_lines(body),
        0 <= s <= body.len(),
        split_lines(body) == done + split_lines(body.skip(s)),
        split_lines(body.skip(s))[0] == line,
        0 <= j < done.len(),
        line_entry(done[j]).0 == line_entry(line).0,
    ensures
        !meta_parses(b),
{
    lemma_split_lines_nonempty(body.skip(s));
    let es = meta_entries(b);
    assert(meta_lines(b)[done.len() as int] == line);
    assert(meta_lines(b)[j] == done[j]);
    assert(es[j].0 == es[done.len() as int].0);
}

/// A byte below 0x80 in the encoding of a scalar is that scalar (a one-byte encoding).
proof fn lemma_scalar_ascii_byte(x: u32)
    ensures
        forall|j: int| 0 <= j < encode_scalar(x).len() && #[trigger] encode_scalar(x)[j] < 0x80 ==> encode_scalar(x)[j] == x,
{
    if has_width_1_encoding(x) {
        assert((x & 0x7F) as u8 == x) by (bit_vector)
            requires
                x <= 0x7F,
        ;
    } else {
        assert(forall|y: u8| #[trigger] (0x80u8 | y) >= 0x80) by (bit_vector);
        assert(forall|y: u8| #[trigger] (0xC0u8 | y) >= 0x80) by (bit_vector);
        assert(forall|y: u8| #[trigger] (0xE0u8 | y) >= 0x80) by (bit_vector);
        assert(forall|y: u8| #[trigger] (0xF0u8 | y) >= 0x80) by (bit_vector);
    }
}

/// An ASCII character that the text does not hold is no byte of its encoding.
proof fn lemma_encode_lacks(s: Seq<char>, c: char)
    requires
        (c as u32) < 0x80,
        !s.contains(c),
    ensures
        forall|j: int| 0 <= j < encode_utf8(s).len() ==> #[trigger] encode_utf8(s)[j] != c as u8,
    decreases s.len(),
{
    if s.len() > 0 {
        lemma_encode_lacks(s.drop_first(), c);
        let x = s[0] as u32;
        lemma_scalar_ascii_byte(x);
        let e = encode_scalar(x);
        assert(encode_utf8(s) == e + encode_utf8(s.drop_first()));
        assert forall|j: int| 0 <= j < encode_utf8(s).len() implies #[trigger] encode_utf8(s)[j] != c as u8 by {
            if j < e.len() {
                if e[j] == c as u8 {
                    assert(x == c as u32);
                    char_u32_cast(s[0], x);
                    char_u32_cast(c, x);
                    assert(s[0] == c);
                }
            } else {
                assert(encode_utf8(s)[j] == encode_utf8(s.drop_first())[j - e.len()]);
                assert forall|t: int| 0 <= t < s.drop_first().len() implies s.drop_first()[t] != c by {
                    assert(s.drop_first()[t] == s[t + 1]);
                }
            }
        }
    }
}

/// The bytes of one entry line (without its `\n`).
pub open spec fn entry_line(e: (Seq<char>, Seq<char>)) -> Seq<u8> {
    encode_utf8(e.0) + seq![0x3Du8] + encode_utf8(e.1)
}

/// An entry that `set` accepts: a valid key and a value without line breaks.
pub open spec fn entry_writable(e: (Seq<char>, Seq<char>)) -> bool {
    valid_key(e.0) && !e.1.contains('\n') && !e.1.contains('\r')
}

proof fn lemma_entry_line(e: (Seq<char>, Seq<char>))
    requires
        entry_writable(e),
    ensures
        line_ok(entry_line(e)),
        line_entry(entry_line(e)) == e,
        forall|j: int| 0 <= j < entry_line(e).len() ==> #[trigger] entry_line(e)[j] != 0x0A,
        valid_utf8(entry_line(e)),
{
    let ek = encode_utf8(e.0);
    let ev = encode_utf8(e.1);
    let l = entry_line(e);
    assert(is_ascii_chars(e.0)) by {
        assert forall|i: int| 0 <= i < e.0.len() implies '\0' <= #[trigger] e.0[i] <= '\u{7f}' by {
            assert(is_key_char(e.0[i]));
        }
    }
    is_ascii_chars_encode_utf8(e.0);
    assert forall|j: int| 0 <= j < ek.len() implies #[trigger] ek[j] != 0x3D && ek[j] != 0x0A && is_key_byte(ek[j]) by {
        assert(ek[j] == e.0[j] as u8);
        assert(is_key_char(e.0[j]));
    }
    lemma_index_of_is(l, 0x3D, ek.len() as int);
    assert(line_key(l) =~= ek);
    assert(line_value(l) =~= ev);
    lemma_encode_lacks(e.1, '\r');
    lemma_index_of_is(ev, 0x0D, -1);
    lemma_encode_lacks(e.1, '\n');
    encode_utf8_valid_utf8(e.0);
    encode_utf8_valid_utf8(e.1);
    encode_utf8_decode_utf8(e.0);
    encode_utf8_decode_utf8(e.1);
    assert forall|j: int| 0 <= j < l.len() implies #[trigger] l[j] != 0x0A by {
        if j < ek.len() {
            assert(l[j] == ek[j]);
        } else if j > ek.len() {
            assert(l[j] == ev[j - ek.len() - 1]);
        }
    }
    let eq = seq!['='];
    assert(is_ascii_chars(eq));
    is_ascii_chars_encode_utf8(eq);
    encode_utf8_valid_utf8(eq);
    assert(encode_utf8(eq) =~= seq![0x3Du8]);
    valid_utf8_concat(ek, seq![0x3Du8]);
    valid_utf8_concat(ek + seq![0x3Du8], ev);
}

/// Splitting at the last `\n` splits off the last line.
proof fn lemma_split_last(a: Seq<u8>, b: Seq<u8>)
    requires
        forall|j: int| 0 <= j < b.len() ==> b[j] != 0x0A,
    ensures
        split_lines(a + seq![0x0Au8] + b) == split_lines(a) + seq![b],
    decreases a.len(),
{
    let s = a + seq![0x0Au8] + b;
    lemma_index_of(a, 0x0Au8);
    let i = index_of(a, 0x0Au8);
    if i < 0 {
        lemma_index_of_is(s, 0x0A, a.len() as int);
        assert(s.take(a.len() as int) =~= a);
        assert(s.skip(a.len() as int + 1) =~= b);
        lemma_index_of_is(b, 0x0A, -1);
        assert(split_lines(b) == seq![b]);
        assert(split_lines(a) == seq![a]);
    } else {
        lemma_index_of_is(s, 0x0A, i);
        let a2 = a.skip(i + 1);
        assert(s.take(i) =~= a.take(i));
        assert(s.skip(i + 1) =~= a2 + seq![0x0Au8] + b);
        lemma_split_last(a2, b);
        assert(split_lines(a) == seq![a.take(i)] + split_lines(a2));
        assert(split_lines(s) =~= split_lines(a) + seq![b]);
    }
}

proof fn lemma_meta_lines(es: MetaEntries)
    requires
        es.len() > 0,
        forall|i: int| 0 <= i < es.len() ==> entry_writable(#[trigger] es[i]),
    ensures
        meta_bytes(es).len() > 0,
        meta_bytes(es).last() == 0x0A,
        split_lines(meta_bytes(es).drop_last()) == es.map_values(|e: (Seq<char>, Seq<char>)| entry_line(e)),
    decreases es.len(),
{
    let e = es.last();
    assert(entry_writable(es[es.len() - 1]));
    lemma_entry_line(e);
    let b = meta_bytes(es);
    assert(b == meta_bytes(es.drop_last()) + entry_line(e) + seq![0x0Au8]);
    assert(b.drop_last() =~= meta_bytes(es.drop_last()) + entry_line(e));
    if es.len() == 1 {
        assert(meta_bytes(es.drop_last()) =~= Seq::<u8>::empty());
        lemma_index_of_is(entry_line(e), 0x0A, -1);
        assert(b.drop_last() =~= entry_line(e));
        assert(es.map_values(|e: (Seq<char>, Seq<char>)| entry_line(e)) =~= seq![entry_line(e)]);
    } else {
        let rest = es.drop_last();
        assert forall|i: int| 0 <= i < rest.len() implies entry_writable(#[trigger] rest[i]) by {
            assert(rest[i] == es[i]);
        }
        lemma_meta_lines(rest);
        let p = meta_bytes(rest);
        assert(p =~= p.drop_last() + seq![0x0Au8]);
        assert(b.drop_last() =~= p.drop_last() + seq![0x0Au8] + entry_line(e));
        lemma_split_last(p.drop_last(), entry_line(e));
        assert(es.map_values(|e: (Seq<char>, Seq<char>)| entry_line(e)) =~= rest.map_values(
            |e: (Seq<char>, Seq<char>)| entry_line(e),
        ).push(entry_line(e)));
    }
}

proof fn lemma_meta_bytes_valid(es: MetaEntries)
    requires
        forall|i: int| 0 <= i < es.len() ==> entry_writable(#[trigger] es[i]),
    ensures
        valid_utf8(meta_bytes(es)),
    decreases es.len(),
{
    if es.len() > 0 {
        let rest = es.drop_last();
        assert forall|i: int| 0 <= i < rest.len() implies entry_writable(#[trigger] rest[i]) by {
            assert(rest[i] == es[i]);
        }
        lemma_meta_bytes_valid(rest);
        assert(entry_writable(es[es.len() - 1]));
        lemma_entry_line(es.last());
        let nl = seq!['\n'];
        assert(is_ascii_chars(nl));
        is_ascii_chars_encode_utf8(nl);
        encode_utf8_valid_utf8(nl);
        assert(encode_utf8(nl) =~= seq![0x0Au8]);
        assert(meta_bytes(es) =~= meta_bytes(rest) + (entry_line(es.last()) + seq![0x0Au8]));
        valid_utf8_concat(entry_line(es.last()), seq![0x0Au8]);
        valid_utf8_concat(meta_bytes(rest), entry_line(es.last()) + seq![0x0Au8]);
    }
}

/// Metadata that `set` could have written reads back as itself: its bytes parse, into the same
/// entries in the same order.
pub proof fn lemma_meta_roundtrip(es: MetaEntries)
    requires
        meta_ok(es),
        meta_bytes(es).len() <= MAX_META_LEN,
    ensures
        meta_parses(meta_bytes(es)),
        meta_entries(meta_bytes(es)) == es,
{
    let b = meta_bytes(es);
    assert(key_index(es, "name"@) >= 0);
    lemma_meta_lines(es);
    lemma_meta_bytes_valid(es);
    let lines = es.map_values(|e: (Seq<char>, Seq<char>)| entry_line(e));
    assert(meta_lines(b) == lines);
    assert forall|i: int| 0 <= i < lines.len() implies line_ok(#[trigger] lines[i]) && line_entry(lines[i]) == es[i] by {
        lemma_entry_line(es[i]);
    }
    assert(meta_entries(b) =~= es);
}

} // verus!
