//! The checks made when a dictionary file is loaded: the container, the metadata against the
//! header, the string tables, the trie's char map and root, the entry and matrix counts, the
//! character definitions and the unknown-word templates.

use vstd::prelude::*;
use vstd::string::StringSliceAdditionalSpecFns;
use crate::le::{le_u16, le_u32, read_u32};
use super::DictError;
use super::container::{self, container_ok, entry_ok, find_entry, not_hsd, section_code, spec_slot, Layout, SectionId, VERSION};
use super::meta::{meta_entries, meta_parses, value_of, Meta, KEY_PRUNED_DOMINATED};
use super::records::LEFT_ID_LIMIT;
use super::strtab::{self, strtab_count, strtab_piece, strtab_valid};
use vstd::utf8::decode_utf8;
use super::trie::{parts_ok, Node, Trie, VALUE_LIMIT};

verus! {

/// The most strings a table indexed by `u16` holds.
pub const U16_TABLE: usize = 0x1_0000;

proof fn lemma_find_entry(b: Seq<u8>, c: u32, k: int)
    ensures
        find_entry(b, c, k) >= 0 ==> find_entry(b, c, k) < k,
        find_entry(b, c, k) >= -1,
    decreases k,
{
    if k > 0 {
        lemma_find_entry(b, c, k - 1);
    }
}

/// The bytes of section `id` (none where it is missing).
pub open spec fn section_bytes(b: Seq<u8>, id: SectionId) -> Seq<u8> {
    match spec_slot(b, id) {
        Some(r) => b.subrange(r.offset as int, r.offset + r.len),
        None => Seq::empty(),
    }
}

proof fn lemma_slot_in_bounds(b: Seq<u8>, id: SectionId)
    requires
        container_ok(b),
    ensures
        spec_slot(b, id) matches Some(r) ==> r.offset + r.len <= b.len(),
{
    let i = find_entry(b, section_code(id), container::count_of(b));
    lemma_find_entry(b, section_code(id), container::count_of(b));
    if i >= 0 {
        assert(entry_ok(b, i));
    }
}

fn section<'a>(data: &'a [u8], layout: &Layout, id: SectionId) -> (r: &'a [u8])
    requires
        container_ok(data@),
        layout.wf(),
        forall|x: SectionId| #[trigger] layout.slot(x) == spec_slot(data@, x),
    ensures
        r@ == section_bytes(data@, id),
{
    proof {
        lemma_slot_in_bounds(data@, id);
    }
    let r = layout.get(id);
    let dl = data.len();
    proof {
        assert(layout.slot(id) == spec_slot(data@, id));
        assert(r.offset + r.len <= dl);
    }
    vstd::slice::slice_subrange(data, r.offset, r.offset + r.len)
}

/// Little-endian `u16`s.
pub open spec fn u16s_of(s: Seq<u8>) -> Seq<u16> {
    Seq::new(s.len() / 2, |i: int| le_u16(s, 2 * i) as u16)
}

/// Nodes of 8 bytes: `base`, then `check`, little-endian.
pub open spec fn nodes_of(s: Seq<u8>) -> Seq<Node> {
    Seq::new(s.len() / 8, |i: int| Node { base: le_u32(s, 8 * i) as u32, check: le_u32(s, 8 * i + 4) as u32 })
}

fn read_u16s(s: &[u8]) -> (r: Vec<u16>)
    ensures
        r@ == u16s_of(s@),
{
    let n = s.len() / 2;
    let mut r: Vec<u16> = Vec::new();
    let mut i: usize = 0;
    while i < n
        invariant
            n == s@.len() / 2,
            i <= n,
            r@ =~= u16s_of(s@).take(i as int),
        decreases n - i,
    {
        let vl = s.len();
        assert(2 * i + 2 <= vl) by (nonlinear_arith)
            requires
                i < n,
                n == vl / 2,
        ;
        let x = s[2 * i] as u16 + (s[2 * i + 1] as u16) * 256;
        r.push(x);
        i = i + 1;
    }
    r
}

fn read_nodes(s: &[u8]) -> (r: Vec<Node>)
    ensures
        r@ == nodes_of(s@),
{
    let n = s.len() / 8;
    let mut r: Vec<Node> = Vec::new();
    let mut i: usize = 0;
    while i < n
        invariant
            n == s@.len() / 8,
            i <= n,
            r@ =~= nodes_of(s@).take(i as int),
        decreases n - i,
    {
        let vl = s.len();
        assert(8 * i + 8 <= vl) by (nonlinear_arith)
            requires
                i < n,
                n == vl / 8,
        ;
        let base = read_u32(s, 8 * i);
        let check = read_u32(s, 8 * i + 4);
        r.push(Node { base, check });
        i = i + 1;
    }
    r
}

/// The metadata's `pruned_dominated`, where present, agrees with the header flag.
pub open spec fn pruned_agrees(b: Seq<u8>) -> bool {
    let es = meta_entries(section_bytes(b, SectionId::Meta));
    value_of(es, "pruned_dominated"@) matches Some(v) ==> ((v == "true"@) == (le_u32(b, 12) % 2 == 1))
}

/// ENTRIES (6-byte records) and FEATURE_OFFSETS (4-byte offsets): as many of each, at least one,
/// and fewer than 2^30.
pub open spec fn entries_ok(e: Seq<u8>, f: Seq<u8>) -> bool {
    &&& e.len() % 6 == 0
    &&& f.len() % 4 == 0
    &&& e.len() / 6 > 0
    &&& e.len() / 6 < VALUE_LIMIT
    &&& e.len() / 6 == f.len() / 4
}

/// MATRIX: its dimensions (u32 each), then `2 × left × right` bytes of costs; at least one of
/// each, at most [`LEFT_ID_LIMIT`] left and 65536 right.
pub open spec fn matrix_ok(m: Seq<u8>) -> bool {
    &&& m.len() >= 8
    &&& 1 <= le_u32(m, 0) <= LEFT_ID_LIMIT
    &&& 1 <= le_u32(m, 4) <= 0x1_0000
    &&& m.len() == 8 + 2 * le_u32(m, 0) * le_u32(m, 4)
}

/// CHAR_CATEGORIES and CHAR_RANGES (16-byte records): every name id below `names`, every range
/// `start <= end <= U+10FFFF`.
pub open spec fn char_defs_ok(cats: Seq<u8>, ranges: Seq<u8>, names: int) -> bool {
    &&& cats.len() % 16 == 0
    &&& ranges.len() % 16 == 0
    &&& forall|i: int| 0 <= i < cats.len() / 16 ==> #[trigger] le_u32(cats, 16 * i) < names
    &&& forall|i: int|
        0 <= i < ranges.len() / 16 ==> #[trigger] le_u32(ranges, 16 * i) <= le_u32(ranges, 16 * i + 4) <= 0x10FFFF
            && le_u32(ranges, 16 * i + 8) < names
}

/// UNK_BUCKETS (8-byte records, one per character type) and UNK_TEMPLATES (12-byte records):
/// every template within the string and context tables, every bucket non-empty and within the
/// templates.
pub open spec fn unk_ok(buckets: Seq<u8>, templates: Seq<u8>, char_types: int, pos: int, left: int, right: int) -> bool {
    &&& buckets.len() % 8 == 0
    &&& templates.len() % 12 == 0
    &&& buckets.len() / 8 == char_types
    &&& forall|i: int|
        0 <= i < templates.len() / 12 ==> #[trigger] le_u32(templates, 12 * i) < pos && le_u16(templates, 12 * i + 4)
            < left && le_u16(templates, 12 * i + 6) < right
    &&& forall|i: int|
        0 <= i < buckets.len() / 8 ==> #[trigger] le_u16(buckets, 8 * i + 4) != 0 && le_u32(buckets, 8 * i)
            + le_u16(buckets, 8 * i + 4) <= templates.len() / 12
}

/// The metadata and string tables of a file: the metadata parses and agrees with the header, and
/// the four string tables are sound.
pub open spec fn front_ok(b: Seq<u8>) -> bool {
    &&& meta_parses(section_bytes(b, SectionId::Meta))
    &&& pruned_agrees(b)
    &&& strtab_valid(section_bytes(b, SectionId::PosStrings), U16_TABLE as int)
    &&& strtab_valid(section_bytes(b, SectionId::ConjTypeStrings), U16_TABLE as int)
    &&& strtab_valid(section_bytes(b, SectionId::ConjFormStrings), U16_TABLE as int)
    &&& strtab_valid(section_bytes(b, SectionId::CategoryNames), U16_TABLE as int)
}

/// The trie sections: whole records, and a char map and root that [`Trie::new`] accepts.
pub open spec fn trie_sections_ok(b: Seq<u8>) -> bool {
    &&& section_bytes(b, SectionId::CharBlocks).len() % 2 == 0
    &&& section_bytes(b, SectionId::CharTables).len() % 2 == 0
    &&& section_bytes(b, SectionId::TrieNodes).len() % 8 == 0
    &&& parts_ok(
        u16s_of(section_bytes(b, SectionId::CharBlocks)),
        u16s_of(section_bytes(b, SectionId::CharTables)),
        nodes_of(section_bytes(b, SectionId::TrieNodes)),
    )
}

/// The entries, the matrix, the character definitions and the unknown-word templates.
pub open spec fn back_ok(b: Seq<u8>, char_types: int) -> bool {
    let m = section_bytes(b, SectionId::Matrix);
    &&& entries_ok(section_bytes(b, SectionId::Entries), section_bytes(b, SectionId::FeatureOffsets))
    &&& matrix_ok(m)
    &&& char_defs_ok(
        section_bytes(b, SectionId::CharCategories),
        section_bytes(b, SectionId::CharRanges),
        strtab_count(section_bytes(b, SectionId::CategoryNames)),
    )
    &&& unk_ok(
        section_bytes(b, SectionId::UnkBuckets),
        section_bytes(b, SectionId::UnkTemplates),
        char_types,
        strtab_count(section_bytes(b, SectionId::PosStrings)),
        le_u32(m, 0),
        le_u32(m, 4),
    )
}

/// The strings of a sound string table, as `v` holds them.
pub open spec fn strings_of(b: Seq<u8>, v: Seq<String>) -> bool {
    &&& v.len() == strtab_count(b)
    &&& forall|i: int| 0 <= i < v.len() ==> (#[trigger] v[i])@ == decode_utf8(strtab_piece(b, i))
}

/// A dictionary file that loads, with `char_types` character types.
pub open spec fn image_ok(b: Seq<u8>, char_types: int) -> bool {
    &&& container_ok(b)
    &&& front_ok(b)
    &&& trie_sections_ok(b)
    &&& back_ok(b, char_types)
}

/// What loading checked and read: the flags, the metadata, the string tables, the trie's arrays,
/// the entry count and the matrix dimensions.
pub struct DictImage {
    pub flags: u32,
    pub meta: Meta,
    pub pos: Vec<String>,
    pub conj_types: Vec<String>,
    pub conj_forms: Vec<String>,
    pub category_names: Vec<String>,
    pub blocks: Vec<u16>,
    pub tables: Vec<u16>,
    pub nodes: Vec<Node>,
    pub entry_count: usize,
    pub num_left: usize,
    pub num_right: usize,
}

fn corrupt(m: &str) -> (e: DictError)
    ensures
        e is Corrupt,
{
    DictError::Corrupt(m.to_owned())
}

fn check_entries(e: &[u8], f: &[u8]) -> (r: Result<usize, DictError>)
    ensures
        r is Ok <==> entries_ok(e@, f@),
        r matches Ok(n) ==> n == e@.len() / 6,
        r matches Err(x) ==> x is Corrupt,
{
    if e.len() % 6 != 0 {
        return Err(corrupt("section ENTRIES cannot be read as 6-byte records"));
    }
    if f.len() % 4 != 0 {
        return Err(corrupt("section FEATURE_OFFSETS cannot be read as 4-byte records"));
    }
    let n = e.len() / 6;
    if n == 0 {
        return Err(corrupt("the dictionary has no entries"));
    }
    if n >= VALUE_LIMIT as usize {
        return Err(corrupt("too many entries"));
    }
    if n != f.len() / 4 {
        return Err(corrupt("ENTRIES and FEATURE_OFFSETS have different numbers of records"));
    }
    Ok(n)
}

fn check_matrix(m: &[u8]) -> (r: Result<(usize, usize), DictError>)
    ensures
        r is Ok <==> matrix_ok(m@),
        r matches Ok((l, rr)) ==> l == le_u32(m@, 0) && rr == le_u32(m@, 4),
        r matches Err(x) ==> x is Corrupt,
{
    if m.len() < 8 {
        return Err(corrupt("MATRIX is shorter than its dimensions"));
    }
    let l = read_u32(m, 0) as usize;
    let r = read_u32(m, 4) as usize;
    if l == 0 || r == 0 || l > LEFT_ID_LIMIT || r > 0x1_0000 {
        return Err(corrupt("MATRIX dimensions are out of range"));
    }
    assert(l * r <= 0x8000 * 0x1_0000) by (nonlinear_arith)
        requires
            l <= 0x8000,
            r <= 0x1_0000,
    ;
    let want: u64 = 8 + 2 * ((l * r) as u64);
    assert(want == 8 + 2 * le_u32(m@, 0) * le_u32(m@, 4)) by (nonlinear_arith)
        requires
            want == 8 + 2 * (l * r),
            l == le_u32(m@, 0),
            r == le_u32(m@, 4),
    ;
    if m.len() as u64 != want {
        return Err(corrupt("MATRIX does not hold 8 + 2 x left x right bytes"));
    }
    Ok((l, r))
}

fn check_char_defs(cats: &[u8], ranges: &[u8], names: usize) -> (r: Result<(), DictError>)
    ensures
        r is Ok <==> char_defs_ok(cats@, ranges@, names as int),
        r matches Err(x) ==> x is Corrupt,
{
    if cats.len() % 16 != 0 {
        return Err(corrupt("section CHAR_CATEGORIES cannot be read as 16-byte records"));
    }
    if ranges.len() % 16 != 0 {
        return Err(corrupt("section CHAR_RANGES cannot be read as 16-byte records"));
    }
    let nc = cats.len() / 16;
    let mut i: usize = 0;
    while i < nc
        invariant
            nc == cats@.len() / 16,
            i <= nc,
            forall|k: int| 0 <= k < i ==> #[trigger] le_u32(cats@, 16 * k) < names,
        decreases nc - i,
    {
        let vl = cats.len();
        assert(16 * i + 16 <= vl) by (nonlinear_arith)
            requires
                i < nc,
                nc == vl / 16,
        ;
        if read_u32(cats, 16 * i) as usize >= names {
            return Err(corrupt("a category name is out of range"));
        }
        i = i + 1;
    }
    let nr = ranges.len() / 16;
    let mut i: usize = 0;
    while i < nr
        invariant
            nr == ranges@.len() / 16,
            i <= nr,
            nc == cats@.len() / 16,
            forall|k: int| 0 <= k < nc ==> #[trigger] le_u32(cats@, 16 * k) < names,
            forall|k: int|
                0 <= k < i ==> #[trigger] le_u32(ranges@, 16 * k) <= le_u32(ranges@, 16 * k + 4) <= 0x10FFFF && le_u32(
                    ranges@,
                    16 * k + 8,
                ) < names,
        decreases nr - i,
    {
        let vl = ranges.len();
        assert(16 * i + 16 <= vl) by (nonlinear_arith)
            requires
                i < nr,
                nr == vl / 16,
        ;
        let start = read_u32(ranges, 16 * i);
        let end = read_u32(ranges, 16 * i + 4);
        if start > end || end > 0x10FFFF {
            return Err(corrupt("a character range is invalid"));
        }
        if read_u32(ranges, 16 * i + 8) as usize >= names {
            return Err(corrupt("a category name is out of range"));
        }
        i = i + 1;
    }
    Ok(())
}

fn read_u16_at(s: &[u8], at: usize) -> (r: u16)
    requires
        at + 2 <= s@.len(),
    ensures
        r == le_u16(s@, at as int),
{
    s[at] as u16 + (s[at + 1] as u16) * 256
}

fn check_unk(buckets: &[u8], templates: &[u8], char_types: usize, pos: usize, left: usize, right: usize) -> (r: Result<(), DictError>)
    ensures
        r is Ok <==> unk_ok(buckets@, templates@, char_types as int, pos as int, left as int, right as int),
        r matches Err(x) ==> x is Corrupt,
{
    if buckets.len() % 8 != 0 {
        return Err(corrupt("section UNK_BUCKETS cannot be read as 8-byte records"));
    }
    if templates.len() % 12 != 0 {
        return Err(corrupt("section UNK_TEMPLATES cannot be read as 12-byte records"));
    }
    let nb = buckets.len() / 8;
    if nb != char_types {
        return Err(corrupt("UNK_BUCKETS does not have one bucket per character type"));
    }
    let nt = templates.len() / 12;
    let mut i: usize = 0;
    while i < nt
        invariant
            nt == templates@.len() / 12,
            i <= nt,
            nb == char_types,
            nb == buckets@.len() / 8,
            buckets@.len() % 8 == 0,
            templates@.len() % 12 == 0,
            forall|k: int|
                0 <= k < i ==> #[trigger] le_u32(templates@, 12 * k) < pos && le_u16(templates@, 12 * k + 4) < left
                    && le_u16(templates@, 12 * k + 6) < right,
        decreases nt - i,
    {
        let vl = templates.len();
        assert(12 * i + 12 <= vl) by (nonlinear_arith)
            requires
                i < nt,
                nt == vl / 12,
        ;
        if read_u32(templates, 12 * i) as usize >= pos || read_u16_at(templates, 12 * i + 4) as usize >= left
            || read_u16_at(templates, 12 * i + 6) as usize >= right {
            return Err(corrupt("an unknown-word template refers outside the tables"));
        }
        i = i + 1;
    }
    let mut i: usize = 0;
    while i < nb
        invariant
            nb == buckets@.len() / 8,
            nt == templates@.len() / 12,
            i <= nb,
            nb == char_types,
            buckets@.len() % 8 == 0,
            templates@.len() % 12 == 0,
            forall|k: int|
                0 <= k < nt ==> #[trigger] le_u32(templates@, 12 * k) < pos && le_u16(templates@, 12 * k + 4) < left
                    && le_u16(templates@, 12 * k + 6) < right,
            forall|k: int|
                0 <= k < i ==> #[trigger] le_u16(buckets@, 8 * k + 4) != 0 && le_u32(buckets@, 8 * k) + le_u16(
                    buckets@,
                    8 * k + 4,
                ) <= nt,
        decreases nb - i,
    {
        let vl = buckets.len();
        assert(8 * i + 8 <= vl) by (nonlinear_arith)
            requires
                i < nb,
                nb == vl / 8,
        ;
        let start = read_u32(buckets, 8 * i) as usize;
        let count = read_u16_at(buckets, 8 * i + 4) as usize;
        if count == 0 || start > nt || count > nt - start {
            return Err(corrupt("an unknown-word bucket is empty or out of range"));
        }
        i = i + 1;
    }
    proof {
        assert(buckets@.len() % 8 == 0);
        assert(templates@.len() % 12 == 0);
        assert(buckets@.len() / 8 == char_types);
        assert(forall|k: int|
            0 <= k < templates@.len() / 12 ==> #[trigger] le_u32(templates@, 12 * k) < pos && le_u16(templates@, 12 * k + 4)
                < left && le_u16(templates@, 12 * k + 6) < right);
        assert(forall|k: int|
            0 <= k < buckets@.len() / 8 ==> #[trigger] le_u16(buckets@, 8 * k + 4) != 0 && le_u32(buckets@, 8 * k)
                + le_u16(buckets@, 8 * k + 4) <= templates@.len() / 12);
    }
    Ok(())
}

/// The metadata and the four string tables of a well-formed container.
#[verifier::rlimit(100)]
fn read_front(data: &[u8], layout: &Layout) -> (r: Result<(Meta, Vec<String>, Vec<String>, Vec<String>, Vec<String>), DictError>)
    requires
        container_ok(data@),
        layout.wf(),
        layout.flags == le_u32(data@, 12),
        forall|x: SectionId| #[trigger] layout.slot(x) == spec_slot(data@, x),
    ensures
        r is Ok <==> front_ok(data@),
        r matches Ok((m, p, t, f, c)) ==> {
            &&& m@ == meta_entries(section_bytes(data@, SectionId::Meta))
            &&& strings_of(section_bytes(data@, SectionId::PosStrings), p@)
            &&& strings_of(section_bytes(data@, SectionId::ConjTypeStrings), t@)
            &&& strings_of(section_bytes(data@, SectionId::ConjFormStrings), f@)
            &&& strings_of(section_bytes(data@, SectionId::CategoryNames), c@)
        },
        r matches Err(e) ==> e is Corrupt,
{
    let meta = Meta::parse(section(data, layout, SectionId::Meta))?;
    let pruned = layout.flags % 2 == 1;
    match meta.get(KEY_PRUNED_DOMINATED) {
        Some(v) => {
            proof {
                reveal_strlit("pruned_dominated");
                reveal_strlit("true");
            }
            if crate::text::str_eq(v, "true") != pruned {
                return Err(corrupt("META pruned_dominated disagrees with the header flag"));
            }
        },
        None => {
            proof {
                reveal_strlit("pruned_dominated");
            }
        },
    }
    let pos = strtab::parse(section(data, layout, SectionId::PosStrings), "POS_STRINGS", U16_TABLE)?;
    let conj_types = strtab::parse(section(data, layout, SectionId::ConjTypeStrings), "CONJ_TYPE_STRINGS", U16_TABLE)?;
    let conj_forms = strtab::parse(section(data, layout, SectionId::ConjFormStrings), "CONJ_FORM_STRINGS", U16_TABLE)?;
    let category_names = strtab::parse(section(data, layout, SectionId::CategoryNames), "CATEGORY_NAMES", U16_TABLE)?;
    Ok((meta, pos, conj_types, conj_forms, category_names))
}

/// The char map and nodes of a well-formed container, checked as [`Trie::new`] does.
fn read_trie(data: &[u8], layout: &Layout) -> (r: Result<(Vec<u16>, Vec<u16>, Vec<Node>), DictError>)
    requires
        container_ok(data@),
        layout.wf(),
        forall|x: SectionId| #[trigger] layout.slot(x) == spec_slot(data@, x),
    ensures
        r is Ok <==> trie_sections_ok(data@),
        r matches Ok((b, t, n)) ==> b@ == u16s_of(section_bytes(data@, SectionId::CharBlocks)) && t@ == u16s_of(
            section_bytes(data@, SectionId::CharTables),
        ) && n@ == nodes_of(section_bytes(data@, SectionId::TrieNodes)),
        r matches Err(e) ==> e is Corrupt,
{
    let bb = section(data, layout, SectionId::CharBlocks);
    let tb = section(data, layout, SectionId::CharTables);
    let nb = section(data, layout, SectionId::TrieNodes);
    if bb.len() % 2 != 0 {
        return Err(corrupt("section CHAR_BLOCKS cannot be read as 2-byte records"));
    }
    if tb.len() % 2 != 0 {
        return Err(corrupt("section CHAR_TABLES cannot be read as 2-byte records"));
    }
    if nb.len() % 8 != 0 {
        return Err(corrupt("section TRIE_NODES cannot be read as 8-byte records"));
    }
    let blocks = read_u16s(bb);
    let tables = read_u16s(tb);
    let nodes = read_nodes(nb);
    match Trie::new(blocks.as_slice(), tables.as_slice(), nodes.as_slice(), section(data, layout, SectionId::TrieTails)) {
        Ok(_) => {},
        Err(e) => {
            return Err(DictError::Corrupt(e.message()));
        },
    }
    Ok((blocks, tables, nodes))
}

/// The entries, the matrix, the character definitions and the unknown-word templates of a
/// well-formed container; the entry count and the matrix dimensions.
fn check_back(data: &[u8], layout: &Layout, char_types: usize, pos: usize, names: usize) -> (r: Result<(usize, usize, usize), DictError>)
    requires
        container_ok(data@),
        layout.wf(),
        forall|x: SectionId| #[trigger] layout.slot(x) == spec_slot(data@, x),
        pos == strtab_count(section_bytes(data@, SectionId::PosStrings)),
        names == strtab_count(section_bytes(data@, SectionId::CategoryNames)),
    ensures
        r is Ok <==> back_ok(data@, char_types as int),
        r matches Ok((e, l, rr)) ==> e == section_bytes(data@, SectionId::Entries).len() / 6 && l == le_u32(
            section_bytes(data@, SectionId::Matrix),
            0,
        ) && rr == le_u32(section_bytes(data@, SectionId::Matrix), 4),
        r matches Err(e) ==> e is Corrupt,
{
    let entry_count = check_entries(section(data, layout, SectionId::Entries), section(data, layout, SectionId::FeatureOffsets))?;
    let matrix = section(data, layout, SectionId::Matrix);
    let (num_left, num_right) = check_matrix(matrix)?;
    check_char_defs(section(data, layout, SectionId::CharCategories), section(data, layout, SectionId::CharRanges), names)?;
    check_unk(section(data, layout, SectionId::UnkBuckets), section(data, layout, SectionId::UnkTemplates), char_types, pos, num_left, num_right)?;
    Ok((entry_count, num_left, num_right))
}

/// Checks a dictionary file with `char_types` character types and reads what loading keeps.
pub fn validate_image(data: &[u8], char_types: usize) -> (r: Result<DictImage, DictError>)
    ensures
        r is Ok <==> image_ok(data@, char_types as int),
        r matches Ok(img) ==> {
            &&& img.flags == le_u32(data@, 12)
            &&& img.meta@ == meta_entries(section_bytes(data@, SectionId::Meta))
            &&& img.blocks@ == u16s_of(section_bytes(data@, SectionId::CharBlocks))
            &&& img.tables@ == u16s_of(section_bytes(data@, SectionId::CharTables))
            &&& img.nodes@ == nodes_of(section_bytes(data@, SectionId::TrieNodes))
            &&& img.entry_count == section_bytes(data@, SectionId::Entries).len() / 6
            &&& img.num_left == le_u32(section_bytes(data@, SectionId::Matrix), 0)
            &&& img.num_right == le_u32(section_bytes(data@, SectionId::Matrix), 4)
            &&& strings_of(section_bytes(data@, SectionId::PosStrings), img.pos@)
            &&& strings_of(section_bytes(data@, SectionId::ConjTypeStrings), img.conj_types@)
            &&& strings_of(section_bytes(data@, SectionId::ConjFormStrings), img.conj_forms@)
            &&& strings_of(section_bytes(data@, SectionId::CategoryNames), img.category_names@)
        },
        r matches Err(e) ==> (e is NotHsd || e is UnsupportedVersion || e is Corrupt),
        r matches Err(DictError::NotHsd) <==> not_hsd(data@),
        (r matches Err(DictError::UnsupportedVersion(_))) <==> !not_hsd(data@) && data@.len() >= 12 && le_u32(data@, 8) != VERSION,
        r matches Err(DictError::UnsupportedVersion(v)) ==> v == le_u32(data@, 8),
{
    let layout = container::parse(data)?;
    let (meta, pos, conj_types, conj_forms, category_names) = read_front(data, &layout)?;
    let (blocks, tables, nodes) = read_trie(data, &layout)?;
    let (entry_count, num_left, num_right) = check_back(data, &layout, char_types, pos.len(), category_names.len())?;
    Ok(DictImage {
        flags: layout.flags,
        meta,
        pos,
        conj_types,
        conj_forms,
        category_names,
        blocks,
        tables,
        nodes,
        entry_count,
        num_left,
        num_right,
    })
}

} // verus!
