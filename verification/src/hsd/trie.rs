//! Character double-array trie with tail compression: from a dictionary surface to its value.
//!
//! Characters map to codes `1..=N` through two levels of tables (`blocks[cp >> 8]` picks a table,
//! `tables[table * 256 + (cp & 0xFF)]` is the code; 0 means "not in the dictionary"). Slot 0 is
//! the root (`check == 0`, INTERNAL); unused slots have `check == UNUSED` and base 0. The top two
//! bits of a used node's base give its kind:
//!
//! | bits | kind | the other bits |
//! | --- | --- | --- |
//! | `00` | INTERNAL | bit 29 = HAS_END, low 29 bits = the children's base |
//! | `10` | LEAF | low 30 bits = value |
//! | `11` | TAIL | low 30 bits = offset of the tail record |
//!
//! The child by code `c` sits at `base + c` with `check` = the parent's slot; with HAS_END,
//! `base + 0` holds the LEAF of the key that ends there. A tail record is `value: u32 (LE)`,
//! `len: varint` (LEB128, at most 5 bytes, `len >= 1`) and `len` bytes of UTF-8.

use vstd::prelude::*;
use vstd::string::StringSliceAdditionalSpecFns;
use crate::hsd::features::{read_varint, varint_at};
use vstd::utf8::is_char_boundary;
use crate::le::le_u32;
use crate::sentence::exceptions::lex_lt;
use crate::text::{byte_pos, char_len, char_width, chars_and_offsets, lemma_byte_pos_full, lemma_byte_pos_mono, lemma_byte_pos_step, lemma_byte_pos_strict};
use vstd::utf8::{encode_utf8, valid_utf8};

verus! {

broadcast use vstd::string::group_string_axioms;

/// Number of char map blocks (256 code points each).
pub const NUM_BLOCKS: usize = 0x1100;
/// Entries of one char map table.
pub const TABLE_LEN: usize = 256;
/// The check of an unused slot.
pub const UNUSED: u32 = 0xFFFF_FFFF;
/// Values of LEAF and TAIL are below this.
pub const VALUE_LIMIT: u32 = 0x4000_0000;
/// The base of an INTERNAL is below this.
pub const BASE_LIMIT: u32 = 0x2000_0000;
/// The tail records are shorter than this.
pub const TAILS_LIMIT: usize = 0x4000_0000;
/// The largest code N is at most this.
pub const MAX_CODE_LIMIT: u32 = 0xFFFF;

pub const KIND_INTERNAL: u32 = 0;
pub const KIND_LEAF: u32 = 2;
pub const KIND_TAIL: u32 = 3;
pub const HAS_END: u32 = 0x2000_0000;
pub const BASE_MASK: u32 = 0x1FFF_FFFF;
pub const PAYLOAD_MASK: u32 = 0x3FFF_FFFF;

/// The kind of a node: the top two bits of its base.
pub open spec fn spec_kind(base: u32) -> u32 {
    base >> 30
}

pub fn kind(base: u32) -> (r: u32)
    ensures
        r == spec_kind(base),
{
    base >> 30
}

/// The base of a LEAF with `value`.
pub open spec fn spec_leaf_base(value: u32) -> u32 {
    0x8000_0000u32 | value
}

pub fn leaf_base(value: u32) -> (r: u32)
    ensures
        r == spec_leaf_base(value),
{
    0x8000_0000u32 | value
}

/// A node of the trie (8 bytes).
#[derive(Clone, Copy, Debug, PartialEq, Eq, Structural)]
pub struct Node {
    /// The kind in the top two bits, and what the kind holds in the rest
    pub base: u32,
    /// The parent's slot; 0 for the root, [`UNUSED`] for an unused slot
    pub check: u32,
}

/// Errors of building and reading a trie.
#[derive(Debug, Clone, PartialEq, Eq)]
pub enum TrieError {
    /// The input cannot be built, or goes past a limit of the format
    Build(String),
    /// The trie is broken
    Corrupt(String),
}

impl TrieError {
    /// The text of the error.
    pub fn message(&self) -> (r: String)
        ensures
            self matches TrieError::Build(m) ==> r@ == "trie build failed: "@ + m@,
            self matches TrieError::Corrupt(m) ==> r@ == "corrupt trie: "@ + m@,
    {
        match self {
            TrieError::Build(m) => crate::text::concat("trie build failed: ", m.as_str()),
            TrieError::Corrupt(m) => crate::text::concat("corrupt trie: ", m.as_str()),
        }
    }
}

fn corrupt(m: &str) -> (e: TrieError)
    ensures
        e is Corrupt,
{
    TrieError::Corrupt(m.to_owned())
}

/// Totals found by [`Trie::verify`].
#[derive(Debug, Clone, Default, PartialEq, Eq)]
pub struct TrieStats {
    /// Length of the node array (unused slots included)
    pub node_count: usize,
    /// Used nodes (the root included)
    pub used: usize,
    /// INTERNAL nodes (the root included)
    pub internal: usize,
    /// LEAF nodes (END children included)
    pub leaves: usize,
    /// TAIL nodes
    pub tails: usize,
    /// Keys (LEAF + TAIL)
    pub keys: usize,
    /// Bytes of the tail records
    pub tail_bytes: usize,
    /// The largest code N
    pub max_code: u32,
}

/// The largest entry of the first `k` of `t` (0 if none).
pub open spec fn max_entry(t: Seq<u16>, k: int) -> int
    decreases k,
{
    if k <= 0 {
        0
    } else if max_entry(t, k - 1) >= t[k - 1] {
        max_entry(t, k - 1)
    } else {
        t[k - 1] as int
    }
}

/// The checks of [`Trie::new`]: the char map's shape, and a root INTERNAL without END whose base
/// leaves room for every code.
pub open spec fn parts_ok(blocks: Seq<u16>, tables: Seq<u16>, nodes: Seq<Node>) -> bool {
    let num_tables = tables.len() / 256;
    let max_code = max_entry(tables, tables.len() as int);
    let root = nodes[0];
    let base = (root.base & BASE_MASK) as int;
    &&& blocks.len() == NUM_BLOCKS
    &&& tables.len() > 0 && tables.len() % 256 == 0
    &&& num_tables <= 0x1_0000
    &&& forall|b: int| 0 <= b < blocks.len() ==> (#[trigger] blocks[b]) < num_tables
    &&& forall|i: int| 0 <= i < 256 ==> #[trigger] tables[i] == 0
    &&& max_code > 0
    &&& nodes.len() < UNUSED
    &&& nodes.len() > 0
    &&& root.check == 0
    &&& spec_kind(root.base) == KIND_INTERNAL
    &&& root.base & HAS_END == 0
    &&& base != 0 && base + max_code < nodes.len()
}

/// A trie over the sections of a dictionary (or the parts of a build).
#[derive(Clone, Copy)]
pub struct Trie<'a> {
    blocks: &'a [u16],
    tables: &'a [u16],
    nodes: &'a [Node],
    tails: &'a [u8],
    max_code: u32,
}

impl<'a> Trie<'a> {
    pub closed spec fn spec_blocks(&self) -> Seq<u16> {
        self.blocks@
    }

    pub closed spec fn spec_tables(&self) -> Seq<u16> {
        self.tables@
    }

    pub closed spec fn spec_nodes(&self) -> Seq<Node> {
        self.nodes@
    }

    pub closed spec fn spec_tails(&self) -> Seq<u8> {
        self.tails@
    }

    pub closed spec fn spec_max_code(&self) -> u32 {
        self.max_code
    }

    /// Checks the char map and the root (not every node) and makes the trie.
    pub fn new(blocks: &'a [u16], tables: &'a [u16], nodes: &'a [Node], tails: &'a [u8]) -> (r: Result<Trie<'a>, TrieError>)
        ensures
            r is Ok <==> parts_ok(blocks@, tables@, nodes@),
            r matches Ok(t) ==> t.spec_blocks() == blocks@ && t.spec_tables() == tables@ && t.spec_nodes() == nodes@
                && t.spec_tails() == tails@ && t.spec_max_code() == max_entry(tables@, tables@.len() as int),
            r matches Err(e) ==> e is Corrupt,
    {
        if blocks.len() != NUM_BLOCKS {
            return Err(corrupt("the char map does not have 0x1100 blocks"));
        }
        if tables.len() == 0 || tables.len() % TABLE_LEN != 0 {
            return Err(corrupt("the char tables are not a positive multiple of 256 entries"));
        }
        let num_tables = tables.len() / TABLE_LEN;
        if num_tables > 0x1_0000 {
            return Err(corrupt("more than 65536 char tables"));
        }
        let mut b: usize = 0;
        while b < blocks.len()
            invariant
                b <= blocks@.len(),
                num_tables == tables@.len() / 256,
                forall|x: int| 0 <= x < b ==> (#[trigger] blocks@[x]) < num_tables,
            decreases blocks@.len() - b,
        {
            if blocks[b] as usize >= num_tables {
                return Err(corrupt("a char block refers to table beyond the char tables"));
            }
            b = b + 1;
        }
        let mut i: usize = 0;
        while i < TABLE_LEN
            invariant
                i <= 256,
                tables@.len() >= 256,
                forall|x: int| 0 <= x < i ==> #[trigger] tables@[x] == 0,
            decreases 256 - i,
        {
            if tables[i] != 0 {
                return Err(corrupt("char table 0 is not all zero"));
            }
            i = i + 1;
        }
        let mut max_code: u16 = 0;
        let mut k: usize = 0;
        while k < tables.len()
            invariant
                k <= tables@.len(),
                max_code == max_entry(tables@, k as int),
            decreases tables@.len() - k,
        {
            if tables[k] > max_code {
                max_code = tables[k];
            }
            k = k + 1;
        }
        if max_code == 0 {
            return Err(corrupt("the char map assigns no codes"));
        }
        if nodes.len() >= UNUSED as usize {
            return Err(corrupt("too many nodes"));
        }
        if nodes.len() == 0 {
            return Err(corrupt("the trie has no nodes"));
        }
        let root = nodes[0];
        if root.check != 0 {
            return Err(corrupt("the root (slot 0) does not have check 0"));
        }
        if kind(root.base) != KIND_INTERNAL {
            return Err(corrupt("the root (slot 0) is not INTERNAL"));
        }
        if root.base & HAS_END != 0 {
            return Err(corrupt("the root (slot 0) has an END child (empty key)"));
        }
        let rb = root.base;
        assert(rb & 0x1FFF_FFFFu32 <= 0x1FFF_FFFFu32) by (bit_vector);
        let base = (rb & BASE_MASK) as usize;
        if base == 0 || base + max_code as usize >= nodes.len() {
            return Err(corrupt("the root's base is out of range for the max code and node count"));
        }
        Ok(Trie { blocks, tables, nodes, tails, max_code: max_code as u32 })
    }

    /// The trie from parts that [`Trie::new`] accepted, with the max code it found (no checks).
    /// Parts that were not checked make searches fail or give unspecified matches, never panic.
    pub fn from_validated(blocks: &'a [u16], tables: &'a [u16], nodes: &'a [Node], tails: &'a [u8], max_code: u32) -> (r: Trie<'a>)
        ensures
            r.spec_blocks() == blocks@,
            r.spec_tables() == tables@,
            r.spec_nodes() == nodes@,
            r.spec_tails() == tails@,
            r.spec_max_code() == max_code,
    {
        Trie { blocks, tables, nodes, tails, max_code }
    }

    /// The largest code N.
    pub fn max_code(&self) -> (r: u32)
        ensures
            r == self.spec_max_code(),
    {
        self.max_code
    }

    /// The length of the node array (unused slots included).
    pub fn node_count(&self) -> (r: usize)
        ensures
            r == self.spec_nodes().len(),
    {
        self.nodes.len()
    }

    /// The code of a character (0 for one that is not in the dictionary).
    pub fn char_code(&self, c: char) -> (r: u32)
        ensures
            r == spec_char_code(self.spec_blocks(), self.spec_tables(), c),
    {
        let cp = c as u32;
        let block = (cp / 256) as usize;
        if block >= self.blocks.len() {
            return 0;
        }
        let table = self.blocks[block] as usize;
        let at = table * TABLE_LEN + (cp % 256) as usize;
        if at >= self.tables.len() {
            return 0;
        }
        self.tables[at] as u32
    }
}

/// The code of `c`: its block's table, at the low byte of the code point (0 when either is out of
/// range).
pub open spec fn spec_char_code(blocks: Seq<u16>, tables: Seq<u16>, c: char) -> u32 {
    let cp = c as u32;
    let block = cp / 256;
    if block >= blocks.len() {
        0
    } else {
        let at = blocks[block as int] * 256 + cp % 256;
        if at >= tables.len() {
            0
        } else {
            tables[at] as u32
        }
    }
}

/// The payload of a LEAF or TAIL: the low 30 bits.
pub open spec fn payload(base: u32) -> u32 {
    base & PAYLOAD_MASK
}

/// The children's base of an INTERNAL: the low 29 bits.
pub open spec fn child_base(base: u32) -> int {
    (base & BASE_MASK) as int
}

/// INTERNAL bases are below this: node count minus N (0 if fewer nodes).
pub open spec fn base_end(nodes: Seq<Node>, max_code: u32) -> int {
    if nodes.len() >= max_code {
        nodes.len() - max_code
    } else {
        0
    }
}

/// The tail record at `off`: its value and its bytes; `None` if it is broken (past the end, the
/// value not below 2^30, a bad or zero length).
pub open spec fn tail_at(tails: Seq<u8>, off: int) -> Option<(u32, Seq<u8>)> {
    if off + 4 > tails.len() {
        None
    } else if le_u32(tails, off) >= VALUE_LIMIT {
        None
    } else {
        match varint_at(tails, off + 4) {
            None => None,
            Some((len, body)) => {
                if len == 0 || body + len > tails.len() {
                    None
                } else {
                    Some((le_u32(tails, off) as u32, tails.subrange(body, body + len)))
                }
            },
        }
    }
}

/// Bytes that start a character (not continuation bytes).
pub open spec fn leading_bytes(b: Seq<u8>, k: int) -> int
    decreases k,
{
    if k <= 0 {
        0
    } else {
        leading_bytes(b, k - 1) + if b[k - 1] < 0x80 || b[k - 1] >= 0xC0 {
            1int
        } else {
            0
        }
    }
}

pub open spec fn sat_add(a: int, b: int) -> int {
    if a + b > usize::MAX {
        usize::MAX as int
    } else {
        a + b
    }
}

/// What a LEAF or TAIL reached at byte `pos` after `depth` characters reports: (matches, no
/// error).
pub open spec fn end_matches(tails: Seq<u8>, text: Seq<u8>, pos: int, depth: int, node: Node) -> (Seq<(int, int, u32)>, bool) {
    let k = spec_kind(node.base);
    if k == KIND_LEAF {
        (seq![(pos, depth, payload(node.base))], true)
    } else if k == KIND_TAIL {
        match tail_at(tails, payload(node.base) as int) {
            None => (Seq::empty(), false),
            Some((v, suf)) => {
                if pos <= text.len() && pos + suf.len() <= text.len() && text.subrange(pos, pos + suf.len()) == suf {
                    if !is_char_boundary(text, pos + suf.len()) {
                        (Seq::empty(), false)
                    } else if depth + leading_bytes(suf, suf.len() as int) > usize::MAX {
                        (Seq::empty(), false)
                    } else {
                        (seq![(pos + suf.len(), depth + leading_bytes(suf, suf.len() as int), v)], true)
                    }
                } else {
                    (Seq::empty(), true)
                }
            },
        }
    } else {
        (Seq::empty(), false)
    }
}

/// The search from `slot` (reached at byte `pos` after `k` characters) over the characters
/// `items` (code, byte length): the matches (end byte, characters, value) and whether it ended
/// without finding a broken node.
pub open spec fn search_from(
    nodes: Seq<Node>,
    tails: Seq<u8>,
    max_code: u32,
    text: Seq<u8>,
    items: Seq<(u32, int)>,
    slot: int,
    pos: int,
    k: int,
) -> (Seq<(int, int, u32)>, bool)
    decreases items.len() - k,
{
    let node = nodes[slot];
    if spec_kind(node.base) != KIND_INTERNAL {
        end_matches(tails, text, pos, k, node)
    } else {
        let base = child_base(node.base);
        if base == 0 || base >= base_end(nodes, max_code) {
            (Seq::empty(), false)
        } else {
            let head: (Seq<(int, int, u32)>, bool) = if node.base & HAS_END != 0 {
                if base < nodes.len() && nodes[base].check == slot as u32 && spec_kind(nodes[base].base) == KIND_LEAF {
                    (seq![(pos, k, payload(nodes[base].base))], true)
                } else {
                    (Seq::empty(), false)
                }
            } else {
                (Seq::empty(), true)
            };
            if !head.1 {
                head
            } else if k < 0 || k >= items.len() {
                head
            } else if items[k].0 == 0 {
                head
            } else {
                let next = base + items[k].0;
                if next >= nodes.len() {
                    (head.0, false)
                } else if nodes[next].check != slot as u32 {
                    head
                } else {
                    let rest = search_from(nodes, tails, max_code, text, items, next, sat_add(pos, items[k].1), k + 1);
                    (head.0 + rest.0, rest.1)
                }
            }
        }
    }
}

/// The whole search from the root: a missing root, or one that is not an INTERNAL without END,
/// is an error.
pub open spec fn search_all(nodes: Seq<Node>, tails: Seq<u8>, max_code: u32, text: Seq<u8>, items: Seq<(u32, int)>, start: int) -> (Seq<(int, int, u32)>, bool) {
    if nodes.len() == 0 || spec_kind(nodes[0].base) != KIND_INTERNAL || nodes[0].base & HAS_END != 0 {
        (Seq::empty(), false)
    } else {
        search_from(nodes, tails, max_code, text, items, 0, start, 0)
    }
}

pub open spec fn items_view(items: Seq<(u32, usize)>) -> Seq<(u32, int)> {
    items.map_values(|x: (u32, usize)| (x.0, x.1 as int))
}

pub open spec fn to_usize_matches(m: Seq<(int, int, u32)>) -> Seq<(usize, usize, u32)> {
    m.map_values(|x: (int, int, u32)| (x.0 as usize, x.1 as usize, x.2))
}

proof fn lemma_to_usize_concat(a: Seq<(int, int, u32)>, b: Seq<(int, int, u32)>)
    ensures
        to_usize_matches(a + b) == to_usize_matches(a) + to_usize_matches(b),
{
    assert(to_usize_matches(a + b) =~= to_usize_matches(a) + to_usize_matches(b));
}


impl<'a> Trie<'a> {
    /// Reads the tail record at `off`.
    fn tail_record(&self, off: u32) -> (r: Result<(u32, &'a [u8]), TrieError>)
        requires
            off < VALUE_LIMIT,
        ensures
            match r {
                Ok((v, suf)) => tail_at(self.tails@, off as int) == Some((v, suf@)),
                Err(e) => tail_at(self.tails@, off as int) is None && e is Corrupt,
            },
    {
        let tails = self.tails;
        let off = off as usize;
        if tails.len() < 4 || off > tails.len() - 4 {
            return Err(corrupt("a tail record runs past the end of the tails"));
        }
        let value = crate::le::read_u32(tails, off);
        if value >= VALUE_LIMIT {
            return Err(corrupt("a tail value is not below 2^30"));
        }
        let (len, body) = match read_varint(tails, off + 4) {
            Some(x) => x,
            None => {
                return Err(corrupt("a tail length is not a varint of at most 5 bytes"));
            },
        };
        if len == 0 {
            return Err(corrupt("a tail length is 0"));
        }
        if body > tails.len() || len as usize > tails.len() - body {
            return Err(corrupt("tail bytes run past the end of the tails"));
        }
        Ok((value, vstd::slice::slice_subrange(tails, body, body + len as usize)))
    }

    /// What the LEAF or TAIL `node` reached at `pos` after `depth` characters reports.
    fn search_end(&self, text: &str, pos: usize, depth: usize, node: Node, out: &mut Vec<(usize, usize, u32)>) -> (r: Result<(), TrieError>)
        requires
            spec_kind(node.base) != KIND_INTERNAL,
        ensures
            final(out)@ == old(out)@ + to_usize_matches(end_matches(self.tails@, text.spec_bytes(), pos as int, depth as int, node).0),
            r is Ok == end_matches(self.tails@, text.spec_bytes(), pos as int, depth as int, node).1,
            r matches Err(e) ==> e is Corrupt,
    {
        let k = kind(node.base);
        if k == KIND_LEAF {
            out.push((pos, depth, node.base & PAYLOAD_MASK));
            proof {
                assert(final(out)@ =~= old(out)@ + to_usize_matches(end_matches(self.tails@, text.spec_bytes(), pos as int, depth as int, node).0));
            }
            return Ok(());
        }
        if k != KIND_TAIL {
            proof {
                assert(final(out)@ =~= old(out)@ + to_usize_matches(Seq::<(int, int, u32)>::empty()));
            }
            return Err(corrupt("a node has the invalid kind 01"));
        }
        let b = node.base;
        assert(b & 0x3FFF_FFFFu32 < 0x4000_0000u32) by (bit_vector);
        let (value, suffix) = match self.tail_record(b & PAYLOAD_MASK) {
            Ok(x) => x,
            Err(e) => {
                proof {
                    assert(final(out)@ =~= old(out)@ + to_usize_matches(Seq::<(int, int, u32)>::empty()));
                }
                return Err(e);
            },
        };
        let bytes = text.as_bytes();
        let n = bytes.len();
        let mut matched = pos <= n && suffix.len() <= n - pos;
        if matched {
            let mut i: usize = 0;
            while i < suffix.len()
                invariant
                    n == bytes@.len(),
                    pos <= n,
                    pos + suffix@.len() <= n,
                    i <= suffix@.len(),
                    matched == forall|j: int| 0 <= j < i ==> bytes@[pos + j] == suffix@[j],
                decreases suffix@.len() - i,
            {
                if bytes[pos + i] != suffix[i] {
                    matched = false;
                }
                i = i + 1;
            }
            proof {
                if matched {
                    assert(bytes@.subrange(pos as int, pos + suffix@.len()) =~= suffix@);
                } else {
                    let j = choose|j: int| 0 <= j < suffix@.len() && !(bytes@[pos + j] == suffix@[j]);
                    assert(bytes@.subrange(pos as int, pos + suffix@.len())[j] != suffix@[j]);
                }
            }
        }
        if !matched {
            proof {
                assert(final(out)@ =~= old(out)@ + to_usize_matches(Seq::<(int, int, u32)>::empty()));
            }
            return Ok(());
        }
        let end = pos + suffix.len();
        if !text.is_char_boundary(end) {
            proof {
                assert(final(out)@ =~= old(out)@ + to_usize_matches(Seq::<(int, int, u32)>::empty()));
            }
            return Err(corrupt("a tail's bytes are not valid UTF-8 (a match ends inside a character)"));
        }
        let mut chars: usize = 0;
        let mut i: usize = 0;
        while i < suffix.len()
            invariant
                i <= suffix@.len(),
                chars == leading_bytes(suffix@, i as int),
                chars <= i,
            decreases suffix@.len() - i,
        {
            if suffix[i] < 0x80 || suffix[i] >= 0xC0 {
                chars = chars + 1;
            }
            i = i + 1;
        }
        if depth > usize::MAX - chars {
            proof {
                assert(final(out)@ =~= old(out)@ + to_usize_matches(Seq::<(int, int, u32)>::empty()));
            }
            return Err(corrupt("a match is too long"));
        }
        out.push((end, depth + chars, value));
        proof {
            assert(final(out)@ =~= old(out)@ + to_usize_matches(end_matches(self.tails@, text.spec_bytes(), pos as int, depth as int, node).0));
        }
        Ok(())
    }
}


/// The characters of `s` from the `k`-th on, as (code, UTF-8 length).
pub open spec fn text_items(blocks: Seq<u16>, tables: Seq<u16>, s: Seq<char>, k: int) -> Seq<(u32, int)> {
    Seq::new((s.len() - k) as nat, |j: int| (spec_char_code(blocks, tables, s[k + j]), char_width(s[k + j])))
}

/// The characters given by codes and offsets from the `start`-th on, as (code, byte length); the
/// shorter of the two lists decides how many there are.
pub open spec fn codes_items(codes: Seq<u16>, offsets: Seq<u32>, start: int) -> Seq<(u32, int)> {
    let n = if codes.len() - start < offsets.len() - start - 1 {
        codes.len() - start
    } else {
        offsets.len() - start - 1
    };
    Seq::new(
        n as nat,
        |i: int| (codes[start + i] as u32, offsets[start + i + 1].wrapping_sub(offsets[start + i]) as int),
    )
}

/// The (end, value) pairs of matches.
pub open spec fn ends_values(m: Seq<(int, int, u32)>) -> Seq<(usize, u32)> {
    m.map_values(|x: (int, int, u32)| (x.0 as usize, x.2))
}

/// The value of the last pair that ends at `end`.
pub open spec fn last_value_at(m: Seq<(usize, u32)>, end: usize) -> Option<u32>
    decreases m.len(),
{
    if m.len() == 0 {
        None
    } else if m.last().0 == end {
        Some(m.last().1)
    } else {
        last_value_at(m.drop_last(), end)
    }
}

/// The search of `text` from byte `start` in the parts of a trie: no match and no error where
/// `start` does not begin a character (or lies past the end).
pub open spec fn text_search(
    blocks: Seq<u16>,
    tables: Seq<u16>,
    nodes: Seq<Node>,
    tails: Seq<u8>,
    max_code: u32,
    text: &str,
    start: int,
) -> (Seq<(int, int, u32)>, bool) {
    chars_search(blocks, tables, nodes, tails, max_code, text@, start)
}

/// The search of the characters `s` from byte `start` of their encoding.
pub open spec fn chars_search(
    blocks: Seq<u16>,
    tables: Seq<u16>,
    nodes: Seq<Node>,
    tails: Seq<u8>,
    max_code: u32,
    s: Seq<char>,
    start: int,
) -> (Seq<(int, int, u32)>, bool) {
    if exists|k: int| 0 <= k <= s.len() && byte_pos(s, k) == start {
        let k = choose|k: int| 0 <= k <= s.len() && byte_pos(s, k) == start;
        search_all(nodes, tails, max_code, encode_utf8(s), text_items(blocks, tables, s, k), start)
    } else {
        (Seq::empty(), true)
    }
}

/// The value that an exact search of the key `s` finds in a trie (`None` where it finds none, or
/// meets a broken node).
pub open spec fn key_value(t: Trie, s: Seq<char>) -> Option<u32> {
    let r = chars_search(t.spec_blocks(), t.spec_tables(), t.spec_nodes(), t.spec_tails(), t.spec_max_code(), s, 0);
    if r.1 {
        last_value_at(ends_values(r.0), encode_utf8(s).len() as usize)
    } else {
        None
    }
}

impl<'a> Trie<'a> {
    /// The search of `text` from byte `start`: no match and no error where `start` does not begin a
    /// character (or lies past the end).
    pub open spec fn spec_text_search(&self, text: &str, start: int) -> (Seq<(int, int, u32)>, bool) {
        text_search(self.spec_blocks(), self.spec_tables(), self.spec_nodes(), self.spec_tails(), self.spec_max_code(), text, start)
    }

    /// The search with precomputed codes: none where `start` is past either list or `offsets` has
    /// nothing from `start` on.
    pub open spec fn spec_codes_search(&self, text: &str, codes: Seq<u16>, offsets: Seq<u32>, start: int) -> (Seq<(int, int, u32)>, bool) {
        if start > codes.len() || start >= offsets.len() {
            (Seq::empty(), true)
        } else {
            search_all(
                self.spec_nodes(),
                self.spec_tails(),
                self.spec_max_code(),
                text.spec_bytes(),
                codes_items(codes, offsets, start),
                offsets[start] as int,
            )
        }
    }

    /// Walks the nodes along `items` from the root, appending every match to `out`.
    fn search_items(&self, text: &str, start: usize, items: &Vec<(u32, usize)>, out: &mut Vec<(usize, usize, u32)>) -> (r: Result<(), TrieError>)
        ensures
            final(out)@ == old(out)@ + to_usize_matches(
                search_all(self.nodes@, self.tails@, self.max_code, text.spec_bytes(), items_view(items@), start as int).0,
            ),
            r is Ok == search_all(self.nodes@, self.tails@, self.max_code, text.spec_bytes(), items_view(items@), start as int).1,
            r matches Err(e) ==> e is Corrupt,
    {
        let ghost nodes = self.nodes@;
        let ghost tails = self.tails@;
        let ghost mc = self.max_code;
        let ghost tb = text.spec_bytes();
        let ghost iv = items_view(items@);
        let ghost total = search_all(nodes, tails, mc, tb, iv, start as int);
        let ns = self.nodes;
        if ns.len() == 0 {
            proof {
                assert(final(out)@ =~= old(out)@ + to_usize_matches(Seq::<(int, int, u32)>::empty()));
            }
            return Err(corrupt("the root is missing"));
        }
        let root = ns[0];
        if kind(root.base) != KIND_INTERNAL || root.base & HAS_END != 0 {
            proof {
                assert(final(out)@ =~= old(out)@ + to_usize_matches(Seq::<(int, int, u32)>::empty()));
            }
            return Err(corrupt("the root is not an INTERNAL without END"));
        }
        let mcu = self.max_code as usize;
        let end_base: usize = if ns.len() >= mcu {
            ns.len() - mcu
        } else {
            0
        };
        let mut pos: usize = start;
        let mut depth: usize = 0;
        let mut slot: usize = 0;
        let mut node: Node = root;
        let ghost mut acc: Seq<(int, int, u32)> = Seq::empty();
        proof {
            assert(acc + search_from(nodes, tails, mc, tb, iv, 0, start as int, 0).0 =~= total.0);
            assert(out@ =~= old(out)@ + to_usize_matches(acc));
        }
        loop
            invariant
                ns@ == nodes,
                nodes == self.nodes@,
                tails == self.tails@,
                mc == self.max_code,
                tb == text.spec_bytes(),
                iv == items_view(items@),
                iv.len() == items@.len(),
                total == search_all(nodes, tails, mc, tb, iv, start as int),
                end_base == base_end(nodes, mc),
                slot < nodes.len(),
                node == nodes[slot as int],
                depth <= items@.len(),
                total.0 == acc + search_from(nodes, tails, mc, tb, iv, slot as int, pos as int, depth as int).0,
                total.1 == search_from(nodes, tails, mc, tb, iv, slot as int, pos as int, depth as int).1,
                out@ == old(out)@ + to_usize_matches(acc),
            decreases items@.len() - depth,
        {
            let ghost here = search_from(nodes, tails, mc, tb, iv, slot as int, pos as int, depth as int);
            if kind(node.base) != KIND_INTERNAL {
                let r = self.search_end(text, pos, depth, node, out);
                proof {
                    lemma_to_usize_concat(acc, here.0);
                    assert(old(out)@ + to_usize_matches(acc) + to_usize_matches(here.0) =~= old(out)@ + (to_usize_matches(acc) + to_usize_matches(here.0)));
                }
                return r;
            }
            let base = (node.base & BASE_MASK) as usize;
            if base == 0 || base >= end_base {
                proof {
                    assert(total.0 =~= acc);
                    assert(acc + Seq::<(int, int, u32)>::empty() =~= acc);
                }
                return Err(corrupt("a node's base is out of range"));
            }
            if node.base & HAS_END != 0 {
                if base < ns.len() && ns[base].check == slot as u32 && kind(ns[base].base) == KIND_LEAF {
                    out.push((pos, depth, ns[base].base & PAYLOAD_MASK));
                    proof {
                        let m = seq![(pos as int, depth as int, payload(nodes[base as int].base))];
                        lemma_to_usize_concat(acc, m);
                        assert(to_usize_matches(m) =~= seq![(pos, depth, ns@[base as int].base & PAYLOAD_MASK)]);
                        assert(old(out)@ + to_usize_matches(acc) + to_usize_matches(m) =~= old(out)@ + (to_usize_matches(acc) + to_usize_matches(m)));
                        acc = acc + m;
                    }
                } else {
                    proof {
                        assert(total.0 =~= acc);
                        assert(acc + Seq::<(int, int, u32)>::empty() =~= acc);
                    }
                    return Err(corrupt("a node has HAS_END, but its END slot is not a LEAF whose check is that node"));
                }
            }
            proof {
                let head: Seq<(int, int, u32)> = if node.base & HAS_END != 0 {
                    seq![(pos as int, depth as int, payload(nodes[base as int].base))]
                } else {
                    Seq::empty()
                };
                assert(total.0 == acc + (here.0).subrange(head.len() as int, here.0.len() as int)) by {
                    if node.base & HAS_END == 0 {
                        assert(here.0.subrange(0, here.0.len() as int) =~= here.0);
                    } else {
                        let hd = here.0.subrange(0, 1);
                        assert(here.0 =~= hd + here.0.subrange(1, here.0.len() as int)) by {
                            assert(here.0.len() >= 1);
                        };
                        assert(acc + here.0 =~= (acc + hd) + here.0.subrange(1, here.0.len() as int));
                        assert(hd =~= head);
                    }
                };
            }
            if depth >= items.len() {
                proof {
                    assert(total.0 =~= acc);
                }
                return Ok(());
            }
            let (code, len) = items[depth];
            if code == 0 {
                proof {
                    assert(total.0 =~= acc);
                }
                return Ok(());
            }
            if code as usize >= ns.len() || base >= ns.len() - code as usize {
                proof {
                    assert(total.0 =~= acc);
                }
                return Err(corrupt("a node's base is out of range"));
            }
            let next = base + code as usize;
            if ns[next].check != slot as u32 {
                proof {
                    assert(total.0 =~= acc);
                }
                return Ok(());
            }
            proof {
                let rest = search_from(nodes, tails, mc, tb, iv, next as int, sat_add(pos as int, len as int), depth + 1);
                assert(total.0 =~= acc + rest.0);
            }
            slot = next;
            node = ns[next];
            pos = if pos > usize::MAX - len {
                usize::MAX
            } else {
                pos + len
            };
            depth = depth + 1;
        }
    }

    /// Every match of a key against a prefix of `text[start..]`, as (end byte, value) in the order
    /// of the ends, and whether the walk met no broken node (the matches found before a broken
    /// node are kept).
    pub fn prefix_matches(&self, text: &str, start: usize) -> (r: (Vec<(usize, u32)>, Result<(), TrieError>))
        ensures
            r.0@ == ends_values(self.spec_text_search(text, start as int).0),
            r.1 is Ok == self.spec_text_search(text, start as int).1,
            r.1 matches Err(e) ==> e is Corrupt,
    {
        let (cs, offs) = chars_and_offsets(text);
        let ghost s = text@;
        let mut k: usize = 0;
        while k < cs.len() && offs[k] < start
            invariant
                cs@ == s,
                offs@.len() == s.len() + 1,
                forall|j: int| 0 <= j <= s.len() ==> #[trigger] offs@[j] == byte_pos(s, j),
                k <= s.len(),
                forall|j: int| 0 <= j < k ==> byte_pos(s, j) < start,
            decreases s.len() - k,
        {
            k = k + 1;
        }
        if offs[k] != start {
            proof {
                assert forall|j: int| 0 <= j <= s.len() implies byte_pos(s, j) != start by {
                    if j > k {
                        lemma_byte_pos_strict(s, k as int, j);
                    }
                    if k == s.len() && j < k {
                        lemma_byte_pos_strict(s, j, k as int);
                    }
                };
                assert(ends_values(Seq::<(int, int, u32)>::empty()) =~= Seq::<(usize, u32)>::empty());
            }
            return (Vec::new(), Ok(()));
        }
        proof {
            assert forall|j: int| 0 <= j <= s.len() && byte_pos(s, j) == start implies j == k by {
                if j < k {
                    lemma_byte_pos_strict(s, j, k as int);
                }
                if j > k {
                    lemma_byte_pos_strict(s, k as int, j);
                }
            };
        }
        let mut items: Vec<(u32, usize)> = Vec::new();
        let mut j: usize = k;
        while j < cs.len()
            invariant
                cs@ == s,
                k <= j <= s.len(),
                items_view(items@) =~= text_items(self.blocks@, self.tables@, s, k as int).take(j - k),
            decreases s.len() - j,
        {
            let c = cs[j];
            let ghost before = items@;
            items.push((self.char_code(c), char_len(c)));
            proof {
                let t = text_items(self.blocks@, self.tables@, s, k as int);
                assert(t[j - k] == (spec_char_code(self.blocks@, self.tables@, s[j as int]), char_width(s[j as int])));
                assert(items_view(items@) =~= items_view(before).push(t[j - k]));
                assert(t.take(j - k + 1) =~= t.take(j - k).push(t[j - k]));
            }
            j = j + 1;
        }
        proof {
            assert(text_items(self.blocks@, self.tables@, s, k as int).take(s.len() - k) =~= text_items(self.blocks@, self.tables@, s, k as int));
        }
        let mut found: Vec<(usize, usize, u32)> = Vec::new();
        let r = self.search_items(text, start, &items, &mut found);
        let ghost m = self.spec_text_search(text, start as int).0;
        proof {
            assert(found@ =~= to_usize_matches(m));
        }
        let mut ends: Vec<(usize, u32)> = Vec::new();
        let mut i: usize = 0;
        while i < found.len()
            invariant
                found@ == to_usize_matches(m),
                i <= found@.len(),
                ends@ =~= ends_values(m).take(i as int),
            decreases found@.len() - i,
        {
            ends.push((found[i].0, found[i].2));
            i = i + 1;
        }
        proof {
            assert(ends_values(m).take(found@.len() as int) =~= ends_values(m));
        }
        (ends, r)
    }
}

proof fn lemma_leading_bytes_nonneg(b: Seq<u8>, k: int)
    ensures
        leading_bytes(b, k) >= 0,
    decreases k,
{
    if k > 0 {
        lemma_leading_bytes_nonneg(b, k - 1);
    }
}

/// The character counts of the matches of a walk lie in `0..=usize::MAX`.
proof fn lemma_search_from_depths(
    nodes: Seq<Node>,
    tails: Seq<u8>,
    max_code: u32,
    text: Seq<u8>,
    items: Seq<(u32, int)>,
    slot: int,
    pos: int,
    k: int,
)
    requires
        0 <= k <= items.len(),
        items.len() <= usize::MAX,
    ensures
        forall|i: int|
            0 <= i < search_from(nodes, tails, max_code, text, items, slot, pos, k).0.len() ==> 0 <= (#[trigger] search_from(
                nodes,
                tails,
                max_code,
                text,
                items,
                slot,
                pos,
                k,
            ).0[i]).1 <= usize::MAX,
    decreases items.len() - k,
{
    let node = nodes[slot];
    let whole = search_from(nodes, tails, max_code, text, items, slot, pos, k);
    if spec_kind(node.base) != KIND_INTERNAL {
        let em = end_matches(tails, text, pos, k, node);
        assert(whole == em);
        if spec_kind(node.base) == KIND_TAIL {
            match tail_at(tails, payload(node.base) as int) {
                None => {},
                Some((v, suf)) => {
                    assert forall|i: int| 0 <= i < em.0.len() implies 0 <= (#[trigger] em.0[i]).1 <= usize::MAX by {
                        assert(leading_bytes(suf, suf.len() as int) >= 0) by {
                            lemma_leading_bytes_nonneg(suf, suf.len() as int);
                        };
                    };
                },
            }
        }
    } else {
        let base = child_base(node.base);
        if !(base == 0 || base >= base_end(nodes, max_code)) && k < items.len() && items[k].0 != 0 {
            let next = base + items[k].0;
            if next < nodes.len() && nodes[next].check == slot as u32 {
                let rest_pos = sat_add(pos, items[k].1);
                lemma_search_from_depths(nodes, tails, max_code, text, items, next, rest_pos, k + 1);
                let whole = search_from(nodes, tails, max_code, text, items, slot, pos, k);
                let rest = search_from(nodes, tails, max_code, text, items, next, rest_pos, k + 1);
                assert forall|i: int| 0 <= i < whole.0.len() implies 0 <= (#[trigger] whole.0[i]).1 <= usize::MAX by {
                    if node.base & HAS_END != 0 && i == 0 {
                    } else if node.base & HAS_END != 0 {
                        assert(whole.0[i] == rest.0[i - 1]);
                    } else {
                        assert(whole.0[i] == rest.0[i]);
                    }
                };
            }
        }
    }
}

impl<'a> Trie<'a> {
    pub(crate) proof fn lemma_codes_depths(&self, text: &str, codes: Seq<u16>, offsets: Seq<u32>, start: int)
        requires
            0 <= start <= codes.len(),
            start < offsets.len(),
            codes.len() <= usize::MAX,
        ensures
            forall|i: int|
                0 <= i < self.spec_codes_search(text, codes, offsets, start).0.len() ==> 0 <= (
                #[trigger] self.spec_codes_search(text, codes, offsets, start).0[i]).1 <= usize::MAX,
    {
        let nodes = self.spec_nodes();
        assert(codes_items(codes, offsets, start).len() <= codes.len() - start);
        if !(nodes.len() == 0 || spec_kind(nodes[0].base) != KIND_INTERNAL || nodes[0].base & HAS_END != 0) {
            lemma_search_from_depths(
                nodes,
                self.spec_tails(),
                self.spec_max_code(),
                text.spec_bytes(),
                codes_items(codes, offsets, start),
                0,
                offsets[start] as int,
                0,
            );
        }
    }
}

/// Where a search puts the matches it finds, in order.
pub trait MatchSink {
    /// The matches put so far: (end, value).
    spec fn log(&self) -> Seq<(usize, u32)>;

    /// Puts one match.
    fn push_match(&mut self, end: usize, value: u32)
        ensures
            final(self).log() == old(self).log().push((end, value)),
    ;
}

impl MatchSink for Vec<(usize, u32)> {
    open spec fn log(&self) -> Seq<(usize, u32)> {
        self@
    }

    fn push_match(&mut self, end: usize, value: u32) {
        self.push((end, value));
    }
}

/// What the search with codes reports for the matches `m` from the `start`-th character: (end
/// character, value), where the end fits in `usize`.
pub open spec fn char_reports(m: Seq<(int, int, u32)>, start: int) -> Seq<(usize, u32)>
    decreases m.len(),
{
    if m.len() == 0 {
        Seq::empty()
    } else if start + m.last().1 <= usize::MAX {
        char_reports(m.drop_last(), start).push(((start + m.last().1) as usize, m.last().2))
    } else {
        char_reports(m.drop_last(), start)
    }
}

impl<'a> Trie<'a> {
    /// Puts `(end byte, value)` into `sink` for each key that matches a prefix of `text[start..]`,
    /// in the order of the ends (those of [`Trie::prefix_matches`]); an error where the walk met a
    /// broken node (after the matches found before it).
    pub fn common_prefix_search<S: MatchSink>(&self, text: &str, start: usize, sink: &mut S) -> (r: Result<(), TrieError>)
        ensures
            final(sink).log() == old(sink).log() + ends_values(self.spec_text_search(text, start as int).0),
            r is Ok == self.spec_text_search(text, start as int).1,
            r matches Err(e) ==> e is Corrupt,
    {
        let (found, r) = self.prefix_matches(text, start);
        let ghost base = sink.log();
        let mut i: usize = 0;
        while i < found.len()
            invariant
                i <= found@.len(),
                sink.log() == base + found@.take(i as int),
            decreases found@.len() - i,
        {
            sink.push_match(found[i].0, found[i].1);
            proof {
                assert(found@.take(i + 1) =~= found@.take(i as int).push(found@[i as int]));
                assert(base + found@.take(i + 1) =~= (base + found@.take(i as int)).push(found@[i as int]));
            }
            i = i + 1;
        }
        proof {
            assert(found@.take(found@.len() as int) =~= found@);
        }
        r
    }

    /// The search with the codes of the characters looked up beforehand: `codes[i]` is the code of
    /// the `i`-th character of `text` and `offsets[i]` its byte offset (with `text.len()` after the
    /// last). Puts `(end character, value)` into `sink` for each match from the `start`-th
    /// character on, in order.
    pub fn common_prefix_search_codes<S: MatchSink>(
        &self,
        text: &str,
        codes: &[u16],
        offsets: &[u32],
        start: usize,
        sink: &mut S,
    ) -> (r: Result<(), TrieError>)
        ensures
            final(sink).log() == old(sink).log() + char_reports(
                self.spec_codes_search(text, codes@, offsets@, start as int).0,
                start as int,
            ),
            r is Ok == self.spec_codes_search(text, codes@, offsets@, start as int).1,
            r matches Err(e) ==> e is Corrupt,
    {
        if start > codes.len() || start >= offsets.len() {
            proof {
                assert(char_reports(Seq::<(int, int, u32)>::empty(), start as int) =~= Seq::<(usize, u32)>::empty());
                assert(old(sink).log() + Seq::<(usize, u32)>::empty() =~= old(sink).log());
            }
            return Ok(());
        }
        let n: usize = if codes.len() - start < offsets.len() - start - 1 {
            codes.len() - start
        } else {
            offsets.len() - start - 1
        };
        let ghost want = codes_items(codes@, offsets@, start as int);
        let ol = offsets.len();
        let mut items: Vec<(u32, usize)> = Vec::new();
        let mut i: usize = 0;
        while i < n
            invariant
                ol == offsets@.len(),
                start < offsets@.len(),
                start <= codes@.len(),
                n == want.len(),
                n <= codes@.len() - start,
                n <= offsets@.len() - start - 1,
                want == codes_items(codes@, offsets@, start as int),
                i <= n,
                items_view(items@) =~= want.take(i as int),
            decreases n - i,
        {
            let ghost before = items@;
            let len = offsets[start + i + 1].wrapping_sub(offsets[start + i]);
            items.push((codes[start + i] as u32, len as usize));
            proof {
                assert(items_view(items@) =~= items_view(before).push(want[i as int]));
                assert(want.take(i + 1) =~= want.take(i as int).push(want[i as int]));
            }
            i = i + 1;
        }
        proof {
            assert(want.take(n as int) =~= want);
        }
        let mut found: Vec<(usize, usize, u32)> = Vec::new();
        let r = self.search_items(text, offsets[start] as usize, &items, &mut found);
        let ghost m = self.spec_codes_search(text, codes@, offsets@, start as int).0;
        proof {
            assert(found@ =~= to_usize_matches(m));
        }
        let ghost base = sink.log();
        let mut j: usize = 0;
        proof {
            self.lemma_codes_depths(text, codes@, offsets@, start as int);
            assert(m.take(0) =~= Seq::<(int, int, u32)>::empty());
            assert(base + char_reports(m.take(0), start as int) =~= base);
        }
        while j < found.len()
            invariant
                found@ == to_usize_matches(m),
                j <= found@.len(),
                forall|q: int| 0 <= q < m.len() ==> 0 <= (#[trigger] m[q]).1 <= usize::MAX,
                sink.log() == base + char_reports(m.take(j as int), start as int),
            decreases found@.len() - j,
        {
            let depth = found[j].1;
            proof {
                assert(m.take(j + 1).drop_last() =~= m.take(j as int));
                assert(m.take(j + 1).last() == m[j as int]);
                assert(depth == m[j as int].1 as usize);
                assert(0 <= m[j as int].1 <= usize::MAX);
            }
            if depth <= usize::MAX - start {
                sink.push_match(start + depth, found[j].2);
                proof {
                    assert(base + char_reports(m.take(j + 1), start as int) =~= (base + char_reports(m.take(j as int), start as int)).push(((start + depth) as usize, m[j as int].2)));
                }
            }
            j = j + 1;
        }
        proof {
            assert(m.take(found@.len() as int) =~= m);
        }
        r
    }

    /// The value of `key` itself: `Ok(None)` where it is no key.
    pub fn get(&self, key: &str) -> (r: Result<Option<u32>, TrieError>)
        ensures
            match r {
                Ok(v) => self.spec_text_search(key, 0).1 && v == last_value_at(
                    ends_values(self.spec_text_search(key, 0).0),
                    key.spec_bytes().len() as usize,
                ),
                Err(e) => !self.spec_text_search(key, 0).1 && e is Corrupt,
            },
    {
        let (found, r) = self.prefix_matches(key, 0);
        if let Err(e) = r {
            return Err(e);
        }
        let target = key.as_bytes().len();
        let mut value: Option<u32> = None;
        let mut i: usize = 0;
        while i < found.len()
            invariant
                i <= found@.len(),
                value == last_value_at(found@.take(i as int), target),
            decreases found@.len() - i,
        {
            proof {
                assert(found@.take(i + 1).drop_last() =~= found@.take(i as int));
            }
            if found[i].0 == target {
                value = Some(found[i].1);
            }
            i = i + 1;
        }
        proof {
            assert(found@.take(found@.len() as int) =~= found@);
        }
        Ok(value)
    }
}

/// The result of a build, ready to be written out as the sections of a dictionary.
#[derive(Debug, Clone, PartialEq, Eq)]
pub struct TrieParts {
    pub blocks: Vec<u16>,
    pub tables: Vec<u16>,
    pub nodes: Vec<Node>,
    pub tails: Vec<u8>,
}

impl TrieParts {
    /// Reads the parts as a trie (see [`Trie::new`]).
    pub fn as_trie(&self) -> (r: Result<Trie<'_>, TrieError>)
        ensures
            match r {
                Ok(t) => parts_ok(self.blocks@, self.tables@, self.nodes@) && t.spec_blocks() == self.blocks@
                    && t.spec_tables() == self.tables@ && t.spec_nodes() == self.nodes@ && t.spec_tails()
                    == self.tails@ && t.spec_max_code() == max_entry(self.tables@, self.tables@.len() as int),
                Err(e) => !parts_ok(self.blocks@, self.tables@, self.nodes@) && e is Corrupt,
            },
    {
        Trie::new(self.blocks.as_slice(), self.tables.as_slice(), self.nodes.as_slice(), self.tails.as_slice())
    }
}

/// The matches of a search along the characters of a text end in ascending order, none before the
/// byte where the search stands, and past it where that node is an INTERNAL without END.
proof fn lemma_search_from_ascending(
    nodes: Seq<Node>,
    tails: Seq<u8>,
    max_code: u32,
    blocks: Seq<u16>,
    tables: Seq<u16>,
    s: Seq<char>,
    k0: int,
    slot: int,
    k: int,
)
    requires
        0 <= k0,
        0 <= k,
        k0 + k <= s.len(),
        encode_utf8(s).len() < usize::MAX,
        0 <= slot < nodes.len(),
    ensures
        ({
            let pos = byte_pos(s, k0 + k);
            let m = search_from(nodes, tails, max_code, encode_utf8(s), text_items(blocks, tables, s, k0), slot, pos, k).0;
            &&& forall|i: int| 0 <= i < m.len() ==> m[i].0 >= pos
            &&& forall|i: int, j: int| 0 <= i < j < m.len() ==> m[i].0 < m[j].0
            &&& (spec_kind(nodes[slot].base) == KIND_INTERNAL && nodes[slot].base & HAS_END == 0) ==> forall|i: int|
                0 <= i < m.len() ==> m[i].0 > pos
        }),
    decreases s.len() - k0 - k,
{
    let text = encode_utf8(s);
    let items = text_items(blocks, tables, s, k0);
    let pos = byte_pos(s, k0 + k);
    let node = nodes[slot];
    if spec_kind(node.base) == KIND_INTERNAL {
        let base = child_base(node.base);
        if !(base == 0 || base >= base_end(nodes, max_code)) && k < items.len() && items[k].0 != 0 {
            let next = base + items[k].0;
            if next < nodes.len() && nodes[next].check == slot as u32 {
                lemma_byte_pos_step(s, k0 + k);
                lemma_byte_pos_full(s);
                lemma_byte_pos_mono(s, k0 + k + 1, s.len() as int);
                crate::sentence::index::lemma_scalar_bytes(s[k0 + k]);
                let pos2 = byte_pos(s, k0 + k + 1);
                assert(items[k].1 == char_width(s[k0 + k]));
                assert(sat_add(pos, items[k].1) == pos2);
                assert(pos2 > pos);
                lemma_search_from_ascending(nodes, tails, max_code, blocks, tables, s, k0, next, k + 1);
                let rest = search_from(nodes, tails, max_code, text, items, next, pos2, k + 1);
                let whole = search_from(nodes, tails, max_code, text, items, slot, pos, k);
                let head: Seq<(int, int, u32)> = if node.base & HAS_END != 0 {
                    seq![(pos, k, payload(nodes[base].base))]
                } else {
                    Seq::empty()
                };
                if whole.0.len() > 0 && !(node.base & HAS_END != 0 && !(base < nodes.len() && nodes[base].check == slot as u32 && spec_kind(nodes[base].base) == KIND_LEAF)) {
                    assert(whole.0 == head + rest.0);
                    assert forall|i: int, j: int| 0 <= i < j < whole.0.len() implies whole.0[i].0 < whole.0[j].0 by {
                        if i >= head.len() {
                            assert(whole.0[i] == rest.0[i - head.len()]);
                            assert(whole.0[j] == rest.0[j - head.len()]);
                        } else {
                            assert(whole.0[j] == rest.0[j - head.len()]);
                        }
                    };
                    assert forall|i: int| 0 <= i < whole.0.len() implies whole.0[i].0 >= pos by {
                        if i >= head.len() {
                            assert(whole.0[i] == rest.0[i - head.len()]);
                        }
                    };
                }
            }
        }
    }
}

/// The matches of a search of a text end in ascending order, each past the byte where it started.
pub proof fn lemma_matches_ascend(t: Trie, text: &str, start: int)
    requires
        text.spec_bytes().len() < usize::MAX,
    ensures
        forall|i: int|
            0 <= i < t.spec_text_search(text, start).0.len() ==> (#[trigger] t.spec_text_search(text, start).0[i]).0 > start,
        forall|i: int, j: int|
            0 <= i < j < t.spec_text_search(text, start).0.len() ==> t.spec_text_search(text, start).0[i].0
                < t.spec_text_search(text, start).0[j].0,
{
    let s = text@;
    if exists|k: int| 0 <= k <= s.len() && byte_pos(s, k) == start {
        let k = choose|k: int| 0 <= k <= s.len() && byte_pos(s, k) == start;
        let nodes = t.spec_nodes();
        if !(nodes.len() == 0 || spec_kind(nodes[0].base) != KIND_INTERNAL || nodes[0].base & HAS_END != 0) {
            lemma_search_from_ascending(nodes, t.spec_tails(), t.spec_max_code(), t.spec_blocks(), t.spec_tables(), s, k, 0, 0);
        }
    }
}

/// Codes and offsets taken from `text` itself: `codes[i]` the code of its `i`-th character,
/// `offsets[i]` that character's byte offset, and the text's length after the last.
pub open spec fn codes_of_text(t: Trie, text: &str, codes: Seq<u16>, offsets: Seq<u32>) -> bool {
    &&& codes.len() == text@.len()
    &&& offsets.len() == text@.len() + 1
    &&& forall|i: int|
        0 <= i < codes.len() ==> #[trigger] codes[i] as u32 == spec_char_code(t.spec_blocks(), t.spec_tables(), text@[i])
    &&& forall|i: int| 0 <= i <= text@.len() ==> #[trigger] offsets[i] == byte_pos(text@, i)
}

/// With codes and offsets taken from the text, the search from the `j`-th character finds the
/// same matches (end byte, characters, value), and fails the same way, as the search of the text
/// from that character's byte.
pub proof fn lemma_codes_agree(t: Trie, text: &str, codes: Seq<u16>, offsets: Seq<u32>, j: int)
    requires
        codes_of_text(t, text, codes, offsets),
        0 <= j <= text@.len(),
    ensures
        t.spec_codes_search(text, codes, offsets, j) == t.spec_text_search(text, offsets[j] as int),
{
    let s = text@;
    let ci = codes_items(codes, offsets, j);
    let ti = text_items(t.spec_blocks(), t.spec_tables(), s, j);
    assert forall|i: int| 0 <= i < ti.len() implies ci[i] == ti[i] by {
        lemma_byte_pos_step(s, j + i);
        assert(offsets[j + i + 1] == byte_pos(s, j + i + 1));
        assert(offsets[j + i] == byte_pos(s, j + i));
        crate::sentence::index::lemma_scalar_bytes(s[j + i]);
    };
    assert(ci =~= ti);
    assert(byte_pos(s, j) == offsets[j] as int);
    assert forall|k: int| 0 <= k <= s.len() && byte_pos(s, k) == offsets[j] as int implies k == j by {
        if k < j {
            lemma_byte_pos_strict(s, k, j);
        }
        if k > j {
            lemma_byte_pos_strict(s, j, k);
        }
    };
}

/// Where a build reports its progress: (keys placed, all keys), in order.
pub trait ProgressSink {
    /// The reports so far.
    spec fn reports(&self) -> Seq<(usize, usize)>;

    /// Takes one report.
    fn report(&mut self, done: usize, total: usize)
        ensures
            final(self).reports() == old(self).reports().push((done, total)),
    ;
}

impl ProgressSink for Vec<(usize, usize)> {
    open spec fn reports(&self) -> Seq<(usize, usize)> {
        self@
    }

    fn report(&mut self, done: usize, total: usize) {
        self.push((done, total));
    }
}

/// Reports of a build of `n` keys: every total `n`, the counts at most `n` and never falling.
pub open spec fn reports_rise(calls: Seq<(usize, usize)>, n: int) -> bool {
    &&& forall|i: int| 0 <= i < calls.len() ==> (#[trigger] calls[i]).1 == n && calls[i].0 <= n
    &&& forall|i: int, j: int| 0 <= i < j < calls.len() ==> (#[trigger] calls[i]).0 <= (#[trigger] calls[j]).0
}

/// The reports of a whole build of `n` keys: they rise, the first is `(0, n)` and the last
/// `(n, n)`.
pub open spec fn progress_ok(calls: Seq<(usize, usize)>, n: int) -> bool {
    &&& calls.len() >= 2
    &&& calls[0] == (0usize, n as usize)
    &&& calls.last() == (n as usize, n as usize)
    &&& reports_rise(calls, n)
}

/// How often a build reports its progress (in keys placed).
pub const PROGRESS_STEP: usize = 0x1_0000;

/// What a build asks of its input: as many values as keys, at least one key, no empty key, keys
/// strictly ascending in byte order, and every value below [`VALUE_LIMIT`].
pub open spec fn build_input_ok(keys: Seq<&str>, values: Seq<u32>) -> bool {
    &&& keys.len() == values.len()
    &&& keys.len() > 0
    &&& forall|i: int| 0 <= i < keys.len() ==> (#[trigger] keys[i]).spec_bytes().len() > 0
    &&& forall|i: int| 0 < i < keys.len() ==> lex_lt(keys[i - 1].spec_bytes(), (#[trigger] keys[i]).spec_bytes())
    &&& forall|i: int| 0 <= i < values.len() ==> (#[trigger] values[i]) < VALUE_LIMIT
}

/// The value that an exact search of `key` finds in the parts of a trie (`None` where it finds
/// none, or meets a broken node).
pub open spec fn parts_lookup(p: TrieParts, key: &str) -> Option<u32> {
    let s = text_search(
        p.blocks@,
        p.tables@,
        p.nodes@,
        p.tails@,
        max_entry(p.tables@, p.tables@.len() as int) as u32,
        key,
        0,
    );
    if s.1 {
        last_value_at(ends_values(s.0), key.spec_bytes().len() as usize)
    } else {
        None
    }
}

fn build_error(m: &str) -> (e: TrieError)
    ensures
        e is Build,
{
    TrieError::Build(m.to_owned())
}

/// Checks the input of a build.
fn check_input(keys: &[&str], values: &[u32]) -> (r: Result<(), TrieError>)
    ensures
        r is Ok <==> build_input_ok(keys@, values@),
        r matches Err(e) ==> e is Build,
{
    if keys.len() != values.len() {
        return Err(build_error("the numbers of keys and values differ"));
    }
    if keys.len() == 0 {
        return Err(build_error("no keys"));
    }
    let mut i: usize = 0;
    while i < keys.len()
        invariant
            i <= keys@.len(),
            forall|k: int| 0 <= k < i ==> (#[trigger] keys@[k]).spec_bytes().len() > 0,
            forall|k: int| 0 < k < i ==> lex_lt(keys@[k - 1].spec_bytes(), (#[trigger] keys@[k]).spec_bytes()),
        decreases keys@.len() - i,
    {
        if keys[i].as_bytes().len() == 0 {
            return Err(build_error("a key is empty"));
        }
        if i > 0 && !crate::sentence::exceptions::bytes_lt(keys[i - 1].as_bytes(), keys[i].as_bytes()) {
            return Err(build_error("keys are not strictly ascending in byte order"));
        }
        i = i + 1;
    }
    let mut j: usize = 0;
    while j < values.len()
        invariant
            j <= values@.len(),
            forall|k: int| 0 <= k < j ==> (#[trigger] values@[k]) < VALUE_LIMIT,
        decreases values@.len() - j,
    {
        if values[j] >= VALUE_LIMIT {
            return Err(build_error("a value is not below 2^30"));
        }
        j = j + 1;
    }
    Ok(())
}

/// The char map of a build: each character of the keys gets a code in `1..=N` by number of
/// occurrences (most first), then by code point; tables are numbered by block (table 0 is the
/// shared zero table). Returns the blocks, the tables and N.
fn build_char_map(keys: &[&str]) -> (r: Result<(Vec<u16>, Vec<u16>, u32), TrieError>)
    ensures
        r matches Err(e) ==> e is Build,
        r matches Ok((b, t, n)) ==> b@.len() == NUM_BLOCKS && n <= MAX_CODE_LIMIT,
{
    let mut cps: Vec<(u64, u64)> = Vec::new();
    let mut k: usize = 0;
    while k < keys.len()
        decreases keys@.len() - k,
    {
        let (cs, _) = chars_and_offsets(keys[k]);
        let mut i: usize = 0;
        while i < cs.len()
            decreases cs@.len() - i,
        {
            let c = cs[i];
            cps.push((c as u32 as u64, 0));
            i = i + 1;
        }
        k = k + 1;
    }
    crate::hsd::features::sort_pairs(&mut cps);
    // (u64::MAX - count, code point): ascending is by count descending, then code point
    let mut ranked: Vec<(u64, u64)> = Vec::new();
    let mut i: usize = 0;
    while i < cps.len()
        decreases cps@.len() - i,
    {
        let cp = cps[i].0;
        let mut j: usize = i + 1;
        while j < cps.len() && cps[j].0 == cp
            invariant
                i < j <= cps@.len(),
            decreases cps@.len() - j,
        {
            j = j + 1;
        }
        ranked.push((u64::MAX - (j - i) as u64, cp));
        i = j;
    }
    crate::hsd::features::sort_pairs(&mut ranked);
    if ranked.len() > MAX_CODE_LIMIT as usize {
        return Err(build_error("the keys contain more distinct characters than the 65535 that can be encoded"));
    }
    let mut blocks: Vec<u16> = Vec::new();
    while blocks.len() < NUM_BLOCKS
        invariant
            blocks@.len() <= NUM_BLOCKS,
        decreases NUM_BLOCKS - blocks@.len(),
    {
        blocks.push(0);
    }
    let mut q: usize = 0;
    while q < ranked.len()
        invariant
            blocks@.len() == NUM_BLOCKS,
        decreases ranked@.len() - q,
    {
        let cp = ranked[q].1;
        if cp >= 0x11_0000 {
            return Err(build_error("internal error: a code point is out of range"));
        }
        blocks.set((cp / 256) as usize, 1);
        q = q + 1;
    }
    let mut num_tables: u16 = 1;
    let mut b: usize = 0;
    while b < NUM_BLOCKS
        invariant
            blocks@.len() == NUM_BLOCKS,
            b <= NUM_BLOCKS,
            1 <= num_tables <= b + 1,
        decreases NUM_BLOCKS - b,
    {
        if blocks[b] != 0 {
            blocks.set(b, num_tables);
            num_tables = num_tables + 1;
        }
        b = b + 1;
    }
    let total = num_tables as usize * TABLE_LEN;
    let mut tables: Vec<u16> = Vec::new();
    while tables.len() < total
        invariant
            tables@.len() <= total,
        decreases total - tables@.len(),
    {
        tables.push(0);
    }
    let mut q: usize = 0;
    while q < ranked.len()
        invariant
            blocks@.len() == NUM_BLOCKS,
            tables@.len() == total,
            ranked@.len() <= MAX_CODE_LIMIT,
        decreases ranked@.len() - q,
    {
        let cp = ranked[q].1;
        if cp >= 0x11_0000 {
            return Err(build_error("internal error: a code point is out of range"));
        }
        let at = blocks[(cp / 256) as usize] as usize * TABLE_LEN + (cp % 256) as usize;
        if at >= tables.len() {
            return Err(build_error("internal error: a char table is missing"));
        }
        tables.set(at, (q + 1) as u16);
        q = q + 1;
    }
    Ok((blocks, tables, ranked.len() as u32))
}

/// The code of `c` in a char map under construction (0 where it has none).
fn map_code(blocks: &Vec<u16>, tables: &Vec<u16>, c: char) -> (r: u32) {
    let cp = c as u32;
    let block = (cp / 256) as usize;
    if block >= blocks.len() {
        return 0;
    }
    let at = blocks[block] as usize * TABLE_LEN + (cp % 256) as usize;
    if at >= tables.len() {
        return 0;
    }
    tables[at] as u32
}

/// The free slots of a build: `used[p]` once slot `p` is taken (slots past the end are free), and
/// the first free slot.
struct SlotAllocator {
    used: Vec<bool>,
    first_free: usize,
}

impl SlotAllocator {
    spec fn ok(&self) -> bool {
        &&& self.first_free <= self.used@.len()
        &&& self.used@.len() <= BASE_LIMIT + 0x2_0000
    }

    fn new() -> (r: SlotAllocator)
        ensures
            r.ok(),
    {
        SlotAllocator { used: Vec::new(), first_free: 0 }
    }

    fn is_free(&self, pos: usize) -> (r: bool) {
        pos >= self.used.len() || !self.used[pos]
    }

    /// Takes slot `pos`.
    fn mark(&mut self, pos: usize)
        requires
            old(self).ok(),
            pos < BASE_LIMIT + 0x2_0000,
        ensures
            final(self).ok(),
    {
        while self.used.len() <= pos
            invariant
                self.ok(),
                pos < BASE_LIMIT + 0x2_0000,
            decreases pos + 1 - self.used@.len(),
        {
            self.used.push(false);
        }
        self.used.set(pos, true);
        if pos == self.first_free {
            let mut f = pos + 1;
            while f < self.used.len() && self.used[f]
                invariant
                    f <= self.used@.len(),
                decreases self.used@.len() - f,
            {
                f = f + 1;
            }
            self.first_free = f;
        }
    }

    /// The first base (at least 1) at which every label (ascending, at least one) lands on a free
    /// slot, or one at [`BASE_LIMIT`] or above.
    fn find_base(&self, labels: &Vec<u32>) -> (r: usize)
        requires
            self.ok(),
            labels@.len() > 0,
            forall|i: int| 0 <= i < labels@.len() ==> labels@[i] <= MAX_CODE_LIMIT,
        ensures
            r >= 1,
            r < BASE_LIMIT ==> forall|i: int| 0 <= i < labels@.len() ==> r + labels@[i] < BASE_LIMIT + 0x2_0000,
    {
        let first = labels[0] as usize;
        let from = if self.first_free > first + 1 {
            self.first_free
        } else {
            first + 1
        };
        let mut b: usize = from - first;
        while b < BASE_LIMIT as usize
            invariant
                b >= 1,
                forall|k: int| 0 <= k < labels@.len() ==> labels@[k] <= MAX_CODE_LIMIT,
            decreases BASE_LIMIT - b,
        {
            let mut fits = true;
            let mut i: usize = 0;
            while i < labels.len() && fits
                invariant
                    i <= labels@.len(),
                    b < BASE_LIMIT,
                    forall|k: int| 0 <= k < labels@.len() ==> labels@[k] <= MAX_CODE_LIMIT,
                decreases labels@.len() - i,
            {
                if !self.is_free(b + labels[i] as usize) {
                    fits = false;
                }
                i = i + 1;
            }
            if fits {
                return b;
            }
            b = b + 1;
        }
        b
    }
}

/// A node of the build still to be placed: its slot, the range of keys below it, and how many
/// bytes and characters of them lie above it.
struct Task {
    slot: usize,
    lo: usize,
    hi: usize,
    depth: usize,
    chars: usize,
}

/// A child of a node under placement: its code, its keys, and the byte length of its character.
struct Child {
    code: u32,
    lo: usize,
    hi: usize,
    len: usize,
}

/// Places the keys (depth first, children in descending code point order) into nodes and tails.
/// Returns the nodes and tails, before the nodes are cut to their final length.
fn place_keys<P: ProgressSink>(
    keys: &[&str],
    values: &[u32],
    blocks: &Vec<u16>,
    tables: &Vec<u16>,
    max_code: u32,
    progress: &mut P,
) -> (r: Result<(Vec<Node>, Vec<u8>, usize), TrieError>)
    requires
        build_input_ok(keys@, values@),
        max_code <= MAX_CODE_LIMIT,
    ensures
        r matches Err(e) ==> e is Build,
        r matches Ok((_, _, mb)) ==> mb < BASE_LIMIT,
        r is Ok ==> final(progress).reports().len() >= old(progress).reports().len() && final(progress).reports().take(
            old(progress).reports().len() as int,
        ) == old(progress).reports() && reports_rise(
            final(progress).reports().skip(old(progress).reports().len() as int),
            keys@.len() as int,
        ),
{
    let ghost base = progress.reports();
    let n = keys.len();
    let mut cs: Vec<Vec<char>> = Vec::new();
    let mut total_chars: usize = 0;
    let mut k: usize = 0;
    while k < n
        invariant
            n == keys@.len(),
            k <= n,
            cs@.len() == k,
            total_chars < usize::MAX,
        decreases n - k,
    {
        let (c, _) = chars_and_offsets(keys[k]);
        if total_chars > usize::MAX - c.len() - 1 {
            return Err(build_error("trie too large"));
        }
        total_chars = total_chars + c.len();
        cs.push(c);
        k = k + 1;
    }
    let empty = Node { base: 0, check: UNUSED };
    let mut nodes: Vec<Node> = Vec::new();
    nodes.push(Node { base: 0, check: 0 });
    let mut slots = SlotAllocator::new();
    slots.mark(0);
    let mut p: usize = 1;
    while p <= max_code as usize
        invariant
            slots.ok(),
            max_code <= MAX_CODE_LIMIT,
        decreases max_code + 1 - p,
    {
        slots.mark(p);
        p = p + 1;
    }
    let mut tails: Vec<u8> = Vec::new();
    let mut max_base: usize = 0;
    let mut done: usize = 0;
    let mut next_report: usize = PROGRESS_STEP;
    let mut stack: Vec<Task> = Vec::new();
    stack.push(Task { slot: 0, lo: 0, hi: n, depth: 0, chars: 0 });
    let mut steps: usize = 0;
    let limit = total_chars + 1;
    while stack.len() > 0
        invariant
            n == keys@.len(),
            n == values@.len(),
            cs@.len() == n,
            build_input_ok(keys@, values@),
            slots.ok(),
            max_code <= MAX_CODE_LIMIT,
            nodes@.len() >= 1,
            nodes@.len() <= BASE_LIMIT + 0x2_0000,
            tails@.len() < TAILS_LIMIT,
            max_base < BASE_LIMIT,
            steps <= limit,
            done <= steps,
            limit <= usize::MAX,
            forall|t: int| 0 <= t < stack@.len() ==> (#[trigger] stack@[t]).slot < nodes@.len() && stack@[t].lo < stack@[t].hi
                <= n,
            progress.reports().len() >= base.len(),
            progress.reports().take(base.len() as int) == base,
            reports_rise(progress.reports().skip(base.len() as int), n as int),
            forall|i: int|
                base.len() <= i < progress.reports().len() ==> (#[trigger] progress.reports()[i]).0 <= done,
        decreases limit - steps,
    {
        if steps >= limit {
            return Err(build_error("internal error: more nodes than characters"));
        }
        steps = steps + 1;
        let task = match stack.pop() {
            Some(t) => t,
            None => {
                return Err(build_error("internal error: the stack is empty"));
            },
        };
        let key = keys[task.lo].as_bytes();
        if task.slot != 0 && task.hi - task.lo == 1 {
            let value = values[task.lo];
            if task.depth > key.len() {
                return Err(build_error("internal error: a key ends early"));
            }
            let rest_len = key.len() - task.depth;
            let base = if rest_len == 0 {
                leaf_base(value)
            } else {
                if rest_len >= TAILS_LIMIT - tails.len() {
                    return Err(build_error("trie too large: the tails reach 2^30 bytes"));
                }
                let offset = tails.len() as u32;
                crate::le::push_u32(&mut tails, value);
                crate::hsd::features::push_varint(&mut tails, rest_len as u32);
                crate::le::push_bytes(&mut tails, vstd::slice::slice_subrange(key, task.depth, key.len()));
                if tails.len() >= TAILS_LIMIT {
                    return Err(build_error("trie too large: the tails reach 2^30 bytes"));
                }
                0xC000_0000u32 | offset
            };
            nodes.set(task.slot, Node { base, check: nodes[task.slot].check });
            done = done + 1;
        } else {
            let terminal = key.len() == task.depth;
            let mut children: Vec<Child> = Vec::new();
            let mut i: usize = if terminal {
                task.lo + 1
            } else {
                task.lo
            };
            while i < task.hi
                invariant
                    task.hi <= n,
                    cs@.len() == n,
                    forall|t: int| 0 <= t < children@.len() ==> (#[trigger] children@[t]).lo < children@[t].hi <= n,
                decreases task.hi - i,
            {
                if cs[i].len() <= task.chars {
                    return Err(build_error("internal error: a key ends early"));
                }
                let c = cs[i][task.chars];
                let mut j: usize = i + 1;
                while j < task.hi && cs[j].len() > task.chars && cs[j][task.chars] == c
                    invariant
                        i < j <= task.hi,
                        task.hi <= n,
                        cs@.len() == n,
                    decreases task.hi - j,
                {
                    j = j + 1;
                }
                children.push(Child { code: map_code(blocks, tables, c), lo: i, hi: j, len: char_len(c) });
                i = j;
            }
            if children.len() == 0 {
                return Err(build_error("internal error: an INTERNAL node has no children"));
            }
            let mut pairs: Vec<(u64, u64)> = Vec::new();
            if terminal {
                pairs.push((0, 0));
            }
            let mut q: usize = 0;
            while q < children.len()
                decreases children@.len() - q,
            {
                pairs.push((children[q].code as u64, 0));
                q = q + 1;
            }
            crate::hsd::features::sort_pairs(&mut pairs);
            let mut labels: Vec<u32> = Vec::new();
            let mut q: usize = 0;
            while q < pairs.len()
                invariant
                    forall|t: int| 0 <= t < labels@.len() ==> labels@[t] <= MAX_CODE_LIMIT,
                decreases pairs@.len() - q,
            {
                if pairs[q].0 > MAX_CODE_LIMIT as u64 {
                    return Err(build_error("internal error: a code is out of range"));
                }
                labels.push(pairs[q].0 as u32);
                q = q + 1;
            }
            if labels.len() == 0 {
                return Err(build_error("internal error: an INTERNAL node has no children"));
            }
            let base = slots.find_base(&labels);
            if base >= BASE_LIMIT as usize {
                return Err(build_error("trie too large: a base reaches 2^29"));
            }
            let last = base + labels[labels.len() - 1] as usize;
            if last >= nodes.len() {
                let grown = if nodes.len() / 4 > last + 1 - nodes.len() {
                    nodes.len() + nodes.len() / 4
                } else {
                    last + 1
                };
                let grown = if grown > BASE_LIMIT as usize + 0x2_0000 {
                    BASE_LIMIT as usize + 0x2_0000
                } else {
                    grown
                };
                while nodes.len() < grown
                    invariant
                        grown <= BASE_LIMIT + 0x2_0000,
                        nodes@.len() <= BASE_LIMIT + 0x2_0000,
                        nodes@.len() >= 1,
                    decreases grown - nodes@.len(),
                {
                    nodes.push(empty);
                }
            }
            let mut q: usize = 0;
            while q < labels.len()
                invariant
                    slots.ok(),
                    base < BASE_LIMIT,
                    forall|t: int| 0 <= t < labels@.len() ==> base + labels@[t] < BASE_LIMIT + 0x2_0000,
                decreases labels@.len() - q,
            {
                slots.mark(base + labels[q] as usize);
                q = q + 1;
            }
            if base > max_base {
                max_base = base;
            }
            let parent = task.slot as u32;
            let flag = if terminal {
                HAS_END
            } else {
                0
            };
            nodes.set(task.slot, Node { base: base as u32 | flag, check: nodes[task.slot].check });
            if terminal {
                if base >= nodes.len() {
                    return Err(build_error("internal error: a slot is out of range"));
                }
                nodes.set(base, Node { base: leaf_base(values[task.lo]), check: parent });
                done = done + 1;
            }
            let mut q: usize = 0;
            while q < children.len()
                invariant
                    nodes@.len() >= 1,
                    nodes@.len() <= BASE_LIMIT + 0x2_0000,
                    base < BASE_LIMIT,
                    n == keys@.len(),
                    forall|t: int| 0 <= t < children@.len() ==> (#[trigger] children@[t]).lo < children@[t].hi <= n,
                    forall|t: int| 0 <= t < stack@.len() ==> (#[trigger] stack@[t]).slot < nodes@.len() && stack@[t].lo
                        < stack@[t].hi <= n,
                decreases children@.len() - q,
            {
                let ch = &children[q];
                if ch.code > MAX_CODE_LIMIT || base + ch.code as usize >= nodes.len() || task.depth > usize::MAX - ch.len
                    || task.chars == usize::MAX {
                    return Err(build_error("internal error: a slot is out of range"));
                }
                let slot = base + ch.code as usize;
                nodes.set(slot, Node { base: nodes[slot].base, check: parent });
                stack.push(Task { slot, lo: ch.lo, hi: ch.hi, depth: task.depth + ch.len, chars: task.chars + 1 });
                q = q + 1;
            }
        }
        if done >= next_report {
            let shown = if done < n {
                done
            } else {
                n
            };
            let ghost before = progress.reports();
            progress.report(shown, n);
            proof {
                let after = progress.reports();
                assert(after.take(base.len() as int) =~= before.take(base.len() as int));
                assert(after.skip(base.len() as int) =~= before.skip(base.len() as int).push((shown, n)));
                let mid = after.skip(base.len() as int);
                assert forall|i: int, j: int| 0 <= i < j < mid.len() implies (#[trigger] mid[i]).0 <= (#[trigger] mid[j]).0 by {
                    if j == mid.len() - 1 && i < j {
                        assert(mid[i] == before[base.len() + i]);
                    }
                };
            }
            next_report = if done > usize::MAX - PROGRESS_STEP {
                usize::MAX
            } else {
                done + PROGRESS_STEP
            };
        }
    }
    Ok((nodes, tails, max_base))
}

/// Builds a trie from keys sorted in byte order and their values (see [`build_with_progress`]).
pub fn build(keys: &[&str], values: &[u32]) -> (r: Result<TrieParts, TrieError>)
    ensures
        r matches Err(e) ==> e is Build,
        !build_input_ok(keys@, values@) ==> r is Err,
        r matches Ok(p) ==> parts_ok(p.blocks@, p.tables@, p.nodes@) && forall|i: int|
            0 <= i < keys@.len() ==> parts_lookup(p, #[trigger] keys@[i]) == Some(values@[i]),
{
    let mut reports: Vec<(usize, usize)> = Vec::new();
    build_with_progress(keys, values, &mut reports)
}

/// Builds a trie from keys sorted in byte order and their values, calling `progress(keys placed,
/// all keys)` now and then (first with 0, last with all).
///
/// The input must be [`build_input_ok`], else the build fails. A build also fails where the trie
/// passes a limit of the format (more than [`MAX_CODE_LIMIT`] distinct characters, a base at
/// [`BASE_LIMIT`], tails of [`TAILS_LIMIT`] bytes). What it returns is a trie that
/// [`Trie::new`] accepts and in which every key finds its value.
pub fn build_with_progress<P: ProgressSink>(keys: &[&str], values: &[u32], progress: &mut P) -> (r: Result<
    TrieParts,
    TrieError,
>)
    ensures
        !build_input_ok(keys@, values@) ==> final(progress).reports() == old(progress).reports(),
        r is Ok ==> final(progress).reports().len() >= old(progress).reports().len() && final(progress).reports().take(
            old(progress).reports().len() as int,
        ) == old(progress).reports() && progress_ok(
            final(progress).reports().skip(old(progress).reports().len() as int),
            keys@.len() as int,
        ),
        r matches Err(e) ==> e is Build,
        !build_input_ok(keys@, values@) ==> r is Err,
        r matches Ok(p) ==> parts_ok(p.blocks@, p.tables@, p.nodes@) && forall|i: int|
            0 <= i < keys@.len() ==> parts_lookup(p, #[trigger] keys@[i]) == Some(values@[i]),
{
    let ghost start = progress.reports();
    check_input(keys, values)?;
    let total = keys.len();
    progress.report(0, total);
    let ghost first = progress.reports();
    let (blocks, tables, max_code) = build_char_map(keys)?;
    let (mut nodes, tails, max_base) = place_keys(keys, values, &blocks, &tables, max_code, progress)?;
    let node_count = max_base + max_code as usize + 1;
    if node_count < nodes.len() {
        nodes.truncate(node_count);
    }
    while nodes.len() < node_count
        invariant
            node_count <= BASE_LIMIT + 0x1_0000,
        decreases node_count - nodes@.len(),
    {
        nodes.push(Node { base: 0, check: UNUSED });
    }
    let parts = TrieParts { blocks, tables, nodes, tails };
    let trie = match parts.as_trie() {
        Ok(t) => t,
        Err(_) => {
            return Err(build_error("internal error: the built parts do not make a trie"));
        },
    };
    let mut i: usize = 0;
    while i < keys.len()
        invariant
            i <= keys@.len(),
            keys@.len() == values@.len(),
            build_input_ok(keys@, values@),
            trie.spec_blocks() == parts.blocks@,
            trie.spec_tables() == parts.tables@,
            trie.spec_nodes() == parts.nodes@,
            trie.spec_tails() == parts.tails@,
            trie.spec_max_code() == max_entry(parts.tables@, parts.tables@.len() as int),
            forall|k: int| 0 <= k < i ==> parts_lookup(parts, #[trigger] keys@[k]) == Some(values@[k]),
        decreases keys@.len() - i,
    {
        match trie.get(keys[i]) {
            Ok(Some(v)) => {
                if v != values[i] {
                    return Err(build_error("internal error: a key does not find its value"));
                }
            },
            _ => {
                return Err(build_error("internal error: a key does not find its value"));
            },
        }
        i = i + 1;
    }
    let ghost middle = progress.reports();
    progress.report(total, total);
    proof {
        let all = progress.reports();
        let k = start.len() as int;
        let mid = middle.skip(first.len() as int);
        assert(middle.take(first.len() as int) == first);
        assert(all.take(k) =~= start) by {
            assert(first.take(k) =~= start);
            assert(middle.take(k) =~= middle.take(first.len() as int).take(k));
        };
        let ours = all.skip(k);
        assert(ours =~= seq![(0usize, total)] + mid + seq![(total, total)]) by {
            assert forall|i: int| 0 <= i < ours.len() implies ours[i] == (seq![(0usize, total)] + mid + seq![(total, total)])[i] by {
                if i == 0 {
                    assert(middle[k] == first[k]);
                } else if i < ours.len() - 1 {
                    assert(mid[i - 1] == middle[first.len() + i - 1]);
                }
            };
        };
        assert forall|i: int, j: int| 0 <= i < j < ours.len() implies (#[trigger] ours[i]).0 <= (#[trigger] ours[j]).0 by {
            if i > 0 && j < ours.len() - 1 {
                assert(ours[i] == mid[i - 1] && ours[j] == mid[j - 1]);
            } else if i > 0 {
                assert(ours[i] == mid[i - 1]);
            } else if j < ours.len() - 1 {
                assert(ours[j] == mid[j - 1]);
            }
        };
        assert forall|i: int| 0 <= i < ours.len() implies (#[trigger] ours[i]).1 == total && ours[i].0 <= total by {
            if 0 < i < ours.len() - 1 {
                assert(ours[i] == mid[i - 1]);
            }
        };
    }
    Ok(parts)
}

/// The checks of an INTERNAL node at slot `s`: its base in range, and under HAS_END a LEAF of it
/// at the END position.
pub open spec fn internal_ok(nodes: Seq<Node>, max_code: u32, s: int) -> bool {
    let base = child_base(nodes[s].base);
    &&& base != 0
    &&& base < base_end(nodes, max_code)
    &&& nodes[s].base & HAS_END != 0 ==> base < nodes.len() && nodes[base].check == s as u32 && spec_kind(
        nodes[base].base,
    ) == KIND_LEAF
}

/// The checks of slot `s`: an unused slot has base 0; a used one is an INTERNAL that passes
/// [`internal_ok`], a LEAF with a value below `limit`, or a TAIL whose record is sound, with a
/// value below `limit` and bytes that are UTF-8.
pub open spec fn slot_ok(nodes: Seq<Node>, tails: Seq<u8>, max_code: u32, limit: u32, s: int) -> bool {
    let node = nodes[s];
    if node.check == UNUSED {
        node.base == 0
    } else if spec_kind(node.base) == KIND_INTERNAL {
        internal_ok(nodes, max_code, s)
    } else if spec_kind(node.base) == KIND_LEAF {
        payload(node.base) < limit
    } else if spec_kind(node.base) == KIND_TAIL {
        match tail_at(tails, payload(node.base) as int) {
            Some((v, suf)) => v < limit && valid_utf8(suf),
            None => false,
        }
    } else {
        false
    }
}

/// The value limit of a check: `value_limit`, but at most 2^30.
pub open spec fn capped_limit(value_limit: u32) -> u32 {
    if value_limit < VALUE_LIMIT {
        value_limit
    } else {
        VALUE_LIMIT
    }
}

/// The suffix of a tail record as text.
fn tail_str(suffix: &[u8]) -> (r: Result<&str, TrieError>)
    ensures
        r is Ok <==> valid_utf8(suffix@),
        r matches Err(e) ==> e is Corrupt,
{
    match crate::text::utf8_str(suffix) {
        Some(t) => Ok(t),
        None => Err(corrupt("a TAIL's bytes are not valid UTF-8")),
    }
}

/// The children of each parent, in slot order: those of `p` are `slots[begin..ends[p]]`, where
/// `begin` is `ends[p - 1]` (0 for the root).
struct ChildLists {
    ends: Vec<u32>,
    slots: Vec<u32>,
}

impl ChildLists {
    /// The children of `parent` (none where the lists do not hold it).
    fn of(&self, parent: usize) -> (r: &[u32]) {
        if parent >= self.ends.len() {
            return vstd::slice::slice_subrange(self.slots.as_slice(), 0, 0);
        }
        let begin = if parent == 0 {
            0
        } else {
            self.ends[parent - 1] as usize
        };
        let end = self.ends[parent] as usize;
        if begin > end || end > self.slots.len() {
            return vstd::slice::slice_subrange(self.slots.as_slice(), 0, 0);
        }
        vstd::slice::slice_subrange(self.slots.as_slice(), begin, end)
    }
}

impl<'a> Trie<'a> {
    /// The checks of [`Trie::new`] again, and the max code against the one the tables give (for
    /// views made by [`Trie::from_validated`]).
    fn revalidate(&self) -> (r: Result<Trie<'a>, TrieError>)
        ensures
            r matches Ok(t) ==> parts_ok(self.blocks@, self.tables@, self.nodes@) && t.blocks@ == self.blocks@
                && t.tables@ == self.tables@ && t.nodes@ == self.nodes@ && t.tails@ == self.tails@ && t.max_code
                == self.max_code && self.max_code == max_entry(self.tables@, self.tables@.len() as int),
            r is Ok <==> parts_ok(self.blocks@, self.tables@, self.nodes@) && self.max_code == max_entry(
                self.tables@,
                self.tables@.len() as int,
            ),
            r matches Err(e) ==> e is Corrupt,
    {
        let t = Trie::new(self.blocks, self.tables, self.nodes, self.tails)?;
        if t.max_code != self.max_code {
            return Err(corrupt("the max code differs from the one the char tables give"));
        }
        Ok(t)
    }

    /// Checks the base range and the END child of an INTERNAL node, and returns its base.
    fn check_internal(&self, slot: usize, node: Node) -> (r: Result<usize, TrieError>)
        requires
            slot < self.nodes@.len(),
            node == self.nodes@[slot as int],
        ensures
            r is Ok <==> internal_ok(self.nodes@, self.max_code, slot as int),
            r matches Err(e) ==> e is Corrupt,
    {
        let base = (node.base & BASE_MASK) as usize;
        let mc = self.max_code as usize;
        let end_base = if self.nodes.len() >= mc {
            self.nodes.len() - mc
        } else {
            0
        };
        if base == 0 || base >= end_base {
            return Err(corrupt("an INTERNAL node's base is out of range (it must be at least 1 and below the node count minus the max code)"));
        }
        if node.base & HAS_END != 0 {
            if !(base < self.nodes.len() && self.nodes[base].check == slot as u32 && kind(self.nodes[base].base) == KIND_LEAF) {
                return Err(corrupt("an INTERNAL node has HAS_END, but its END slot is not a LEAF whose check is that node"));
            }
        }
        Ok(base)
    }

    /// Checks that the char map is a one-to-one map between `1..=N` and characters, and returns
    /// the character of each code (index 0 unused).
    fn inverse_char_map(&self) -> (r: Result<Vec<char>, TrieError>)
        ensures
            r matches Err(e) ==> e is Corrupt,
            r matches Ok(v) ==> v@.len() == self.max_code + 1,
    {
        let num_tables = self.tables.len() / TABLE_LEN;
        let mc = self.max_code as usize;
        if mc >= 0x1_0000 {
            return Err(corrupt("the max code is beyond 65535"));
        }
        let mut owner: Vec<bool> = Vec::new();
        while owner.len() < num_tables
            invariant
                owner@.len() <= num_tables,
            decreases num_tables - owner@.len(),
        {
            owner.push(false);
        }
        let mut chars: Vec<char> = Vec::new();
        let mut set: Vec<bool> = Vec::new();
        while chars.len() <= mc
            invariant
                chars@.len() == set@.len(),
                chars@.len() <= mc + 1,
            decreases mc + 1 - chars@.len(),
        {
            chars.push('\0');
            set.push(false);
        }
        let mut block: usize = 0;
        while block < self.blocks.len()
            invariant
                owner@.len() == num_tables,
                num_tables == self.tables@.len() / 256,
                chars@.len() == mc + 1,
                set@.len() == mc + 1,
            decreases self.blocks@.len() - block,
        {
            let table = self.blocks[block] as usize;
            if table != 0 {
                if table >= num_tables {
                    return Err(corrupt("a char block refers to table beyond the char tables"));
                }
                if owner[table] {
                    return Err(corrupt("a char table is shared by two blocks"));
                }
                owner.set(table, true);
                let mut any = false;
                let mut low: usize = 0;
                let tl = self.tables.len();
                while low < TABLE_LEN
                    invariant
                        tl == self.tables@.len(),
                        table < num_tables,
                        num_tables == self.tables@.len() / 256,
                        chars@.len() == mc + 1,
                        set@.len() == mc + 1,
                    decreases 256 - low,
                {
                    assert(table * 256 + low < self.tables@.len()) by (nonlinear_arith)
                        requires
                            table < num_tables,
                            num_tables == self.tables@.len() / 256,
                            low < 256,
                    ;
                    let at: usize = table * TABLE_LEN + low;
                    let code = self.tables[at] as usize;
                    if code != 0 {
                        any = true;
                        if block >= 0x1100 {
                            return Err(corrupt("a code is assigned beyond U+10FFFF"));
                        }
                        let cp = (block * 256 + low) as u32;
                        let c = match crate::text::char_from_u32(cp) {
                            Some(c) => c,
                            None => {
                                return Err(corrupt("a code is assigned to a surrogate"));
                            },
                        };
                        if code > mc {
                            return Err(corrupt("a code is beyond the max code"));
                        }
                        if set[code] {
                            return Err(corrupt("a code is assigned to both of two characters"));
                        }
                        chars.set(code, c);
                        set.set(code, true);
                    }
                    low = low + 1;
                }
                if !any {
                    return Err(corrupt("a char table assigns no codes; such blocks must use table 0"));
                }
            }
            block = block + 1;
        }
        let mut t: usize = 1;
        while t < num_tables
            invariant
                owner@.len() == num_tables,
            decreases num_tables - t,
        {
            if !owner[t] {
                return Err(corrupt("a char table is not referenced by any block"));
            }
            t = t + 1;
        }
        let mut code: usize = 1;
        while code <= mc
            invariant
                set@.len() == mc + 1,
                mc < 0x1_0000,
            decreases mc + 1 - code,
        {
            if !set[code] {
                return Err(corrupt("a code is not assigned to any character"));
            }
            code = code + 1;
        }
        Ok(chars)
    }

    /// The parent of a used node other than the root: a used INTERNAL whose base puts the node
    /// among its children (at the END position only a LEAF, under HAS_END).
    fn parent_of(&self, slot: usize, node: Node) -> (r: Result<usize, TrieError>)
        ensures
            r matches Ok(p) ==> p < self.nodes@.len() && p == node.check,
            slot < self.nodes@.len() && node == self.nodes@[slot as int] ==> (r is Ok <==> parent_ok(
                self.nodes@,
                self.max_code,
                slot as int,
            )),
            r matches Err(e) ==> e is Corrupt,
    {
        let parent = node.check as usize;
        if parent >= self.nodes.len() {
            return Err(corrupt("a node's check is beyond the nodes"));
        }
        let p = self.nodes[parent];
        if p.check == UNUSED || kind(p.base) != KIND_INTERNAL {
            return Err(corrupt("a node's check is a slot that is not an INTERNAL node"));
        }
        let base = (p.base & BASE_MASK) as usize;
        if slot < base || slot - base > self.max_code as usize {
            return Err(corrupt("a node is not among its children of the slot in its check"));
        }
        if slot == base {
            if p.base & HAS_END == 0 {
                return Err(corrupt("a node is at the END position of a slot that has no HAS_END"));
            }
            if kind(node.base) != KIND_LEAF {
                return Err(corrupt("the END child of a node is not a LEAF"));
            }
        }
        Ok(parent)
    }

    /// Checks the parent of every used node and lists the children of each parent.
    fn child_lists(&self) -> (r: Result<ChildLists, TrieError>)
        ensures
            r matches Err(e) ==> e is Corrupt,
    {
        let n = self.nodes.len();
        if n >= UNUSED as usize {
            return Err(corrupt("too many nodes"));
        }
        let mut ends: Vec<u32> = Vec::new();
        while ends.len() < n
            invariant
                ends@.len() <= n,
                forall|q: int| 0 <= q < ends@.len() ==> ends@[q] == 0,
            decreases n - ends@.len(),
        {
            ends.push(0);
        }
        let mut total: usize = 0;
        let mut slot: usize = 1;
        while slot < n
            invariant
                n == self.nodes@.len(),
                n < UNUSED,
                ends@.len() == n,
                total <= slot,
                slot <= n || n == 0,
                forall|q: int| 0 <= q < n ==> ends@[q] <= slot,
            decreases n - slot,
        {
            let node = self.nodes[slot];
            if node.check != UNUSED {
                let parent = self.parent_of(slot, node)?;
                ends.set(parent, ends[parent] + 1);
                total = total + 1;
            }
            slot = slot + 1;
        }
        let mut acc: u32 = 0;
        let mut q: usize = 0;
        while q < n
            invariant
                ends@.len() == n,
                n < UNUSED,
            decreases n - q,
        {
            let count = ends[q];
            ends.set(q, acc);
            if count > UNUSED - 1 || acc > UNUSED - 1 - count {
                return Err(corrupt("too many children"));
            }
            acc = acc + count;
            q = q + 1;
        }
        let mut slots: Vec<u32> = Vec::new();
        while slots.len() < total
            invariant
                slots@.len() <= total,
            decreases total - slots@.len(),
        {
            slots.push(0);
        }
        let mut slot: usize = 1;
        while slot < n
            invariant
                n == self.nodes@.len(),
                n < UNUSED,
                ends@.len() == n,
                slots@.len() == total,
            decreases n - slot,
        {
            let node = self.nodes[slot];
            if node.check != UNUSED {
                let p = node.check as usize;
                if p >= n {
                    return Err(corrupt("a node's check is beyond the nodes"));
                }
                let e = ends[p] as usize;
                if e >= total || ends[p] >= UNUSED - 1 {
                    return Err(corrupt("internal error: a child list overflows"));
                }
                slots.set(e, slot as u32);
                ends.set(p, ends[p] + 1);
            }
            slot = slot + 1;
        }
        Ok(ChildLists { ends, slots })
    }

    /// Checks every node of the trie (O(node count)), with values below `value_limit` (and below
    /// 2^30): a one-to-one char map, the check and base of every slot, END, LEAF and TAIL nodes,
    /// parents and children (every used node reachable from the root, no cycle), and two keys or
    /// more below every INTERNAL other than the root.
    pub fn verify(&self, value_limit: u32) -> (r: Result<TrieStats, TrieError>)
        ensures
            r is Ok <==> verify_ok(*self, capped_limit(value_limit)),
            r matches Err(e) ==> e is Corrupt,
            r matches Ok(st) ==> {
                &&& st.node_count == self.spec_nodes().len()
                &&& st.tail_bytes == self.spec_tails().len()
                &&& st.max_code == self.spec_max_code()
                &&& st.used == st.internal + st.leaves + st.tails
                &&& st.keys == st.leaves + st.tails
            },
    {
        let ghost ns = self.nodes@;
        let ghost lim = capped_limit(value_limit);
        let trie = match self.revalidate() {
            Ok(t) => t,
            Err(e) => {
                proof {
                    assert(!verify_ok(*self, lim));
                }
                return Err(e);
            },
        };
        match trie.check_char_map() {
            Ok(()) => {},
            Err(e) => {
                proof {
                    assert(!verify_ok(*self, lim));
                }
                return Err(e);
            },
        }
        let limit = if value_limit < VALUE_LIMIT {
            value_limit
        } else {
            VALUE_LIMIT
        };
        let nodes = trie.nodes;
        let n = nodes.len();
        let mut internal: usize = 0;
        let mut leaves: usize = 0;
        let mut tails: usize = 0;
        let mut any_key = false;
        let mut slot: usize = 0;
        while slot < n
            invariant
                n == nodes@.len(),
                nodes@ == self.nodes@,
                ns == self.nodes@,
                trie.nodes@ == self.nodes@,
                trie.max_code == self.max_code,
                trie.tails@ == self.tails@,
                internal + leaves + tails <= slot,
                slot <= n,
                limit == capped_limit(value_limit),
                lim == limit,
                any_key <==> exists|q: int| 0 <= q < slot && #[trigger] is_key_node(ns, q),
                forall|q: int| 0 <= q < slot ==> #[trigger] slot_ok(self.nodes@, self.tails@, self.max_code, limit, q),
            decreases n - slot,
        {
            let node = nodes[slot];
            if node.check == UNUSED {
                if node.base != 0 {
                    proof {
                        assert(!slot_ok(self.nodes@, self.tails@, self.max_code, limit, slot as int));
                        if verify_ok(*self, lim) {
                            lemma_verify_slot(*self, lim, slot as int);
                        }
                    }
                    return Err(corrupt("an unused slot has a base other than 0"));
                }
            } else {
                let k = kind(node.base);
                if k == KIND_INTERNAL {
                    match trie.check_internal(slot, node) {
                        Ok(_) => {},
                        Err(e) => {
                            proof {
                                assert(!slot_ok(self.nodes@, self.tails@, self.max_code, limit, slot as int));
                                if verify_ok(*self, lim) {
                                    lemma_verify_slot(*self, lim, slot as int);
                                }
                            }
                            return Err(e);
                        },
                    }
                    internal = internal + 1;
                } else if k == KIND_LEAF {
                    if node.base & PAYLOAD_MASK >= limit {
                        proof {
                            assert(!slot_ok(self.nodes@, self.tails@, self.max_code, limit, slot as int));
                            if verify_ok(*self, lim) {
                                lemma_verify_slot(*self, lim, slot as int);
                            }
                        }
                        return Err(corrupt("a LEAF has a value not below the value limit"));
                    }
                    leaves = leaves + 1;
                    any_key = true;
                } else if k == KIND_TAIL {
                    let b = node.base;
                    assert(b & 0x3FFF_FFFFu32 < 0x4000_0000u32) by (bit_vector);
                    let (value, suffix) = match trie.tail_record(b & PAYLOAD_MASK) {
                        Ok(x) => x,
                        Err(e) => {
                            proof {
                                assert(!slot_ok(self.nodes@, self.tails@, self.max_code, limit, slot as int));
                                if verify_ok(*self, lim) {
                                    lemma_verify_slot(*self, lim, slot as int);
                                }
                            }
                            return Err(e);
                        },
                    };
                    if value >= limit {
                        proof {
                            assert(!slot_ok(self.nodes@, self.tails@, self.max_code, limit, slot as int));
                            if verify_ok(*self, lim) {
                                lemma_verify_slot(*self, lim, slot as int);
                            }
                        }
                        return Err(corrupt("a TAIL has a value not below the value limit"));
                    }
                    match tail_str(suffix) {
                        Ok(_) => {},
                        Err(e) => {
                            proof {
                                assert(!slot_ok(self.nodes@, self.tails@, self.max_code, limit, slot as int));
                                if verify_ok(*self, lim) {
                                    lemma_verify_slot(*self, lim, slot as int);
                                }
                            }
                            return Err(e);
                        },
                    }
                    tails = tails + 1;
                    any_key = true;
                } else {
                    proof {
                        assert(!slot_ok(self.nodes@, self.tails@, self.max_code, limit, slot as int));
                        if verify_ok(*self, lim) {
                            lemma_verify_slot(*self, lim, slot as int);
                        }
                    }
                    return Err(corrupt("a node has the invalid kind 01"));
                }
            }
            proof {
                assert forall|q: int| 0 <= q < slot + 1 implies (#[trigger] is_key_node(ns, q) ==> any_key) by {
                    if q == slot && is_key_node(ns, q) {
                    }
                };
                if any_key {
                    if is_key_node(ns, slot as int) {
                    } else {
                        let q = choose|q: int| 0 <= q < slot && #[trigger] is_key_node(ns, q);
                    }
                }
            }
            slot = slot + 1;
        }
        let used = internal + leaves + tails;
        let mut s: usize = 1;
        while s < n
            invariant
                n == nodes@.len(),
                nodes@ == self.nodes@,
                ns == self.nodes@,
                trie.nodes@ == self.nodes@,
                trie.max_code == self.max_code,
                1 <= s <= n || n == 0,
                forall|q: int| 1 <= q < s && is_used(ns, q) ==> #[trigger] parent_ok(ns, self.max_code, q),
            decreases n - s,
        {
            let node = nodes[s];
            if node.check != UNUSED {
                match trie.parent_of(s, node) {
                    Ok(_) => {},
                    Err(e) => {
                        proof {
                            assert(!parent_ok(ns, self.max_code, s as int));
                            assert(is_used(ns, s as int));
                            assert(!verify_ok(*self, lim));
                        }
                        return Err(e);
                    },
                }
            }
            s = s + 1;
        }
        match trie.check_reach() {
            Ok(()) => {},
            Err(e) => {
                proof {
                    assert(!verify_ok(*self, lim));
                }
                return Err(e);
            },
        }
        if !any_key {
            proof {
                assert(!verify_ok(*self, lim));
            }
            return Err(corrupt("the trie has no keys"));
        }
        let below = trie.count_keys_below();
        let mut s: usize = 1;
        while s < n
            invariant
                n == nodes@.len(),
                nodes@ == self.nodes@,
                ns == self.nodes@,
                below@.len() == n,
                forall|p: int| 1 <= p < n ==> #[trigger] below@[p] == keys_below(ns, p, n as int),
                1 <= s <= n || n == 0,
                forall|q: int|
                    1 <= q < s && is_used(ns, q) && spec_kind(ns[q].base) == KIND_INTERNAL ==> #[trigger] keys_below(ns, q, n as int)
                        >= 2,
            decreases n - s,
        {
            let node = nodes[s];
            if node.check != UNUSED && kind(node.base) == KIND_INTERNAL && below[s] < 2 {
                proof {
                    assert(keys_below(ns, s as int, n as int) < 2);
                    assert(!verify_ok(*self, lim));
                }
                return Err(corrupt("an INTERNAL node has fewer than 2 keys below it; a node with one key must be a LEAF or TAIL"));
            }
            s = s + 1;
        }
        proof {
            assert(verify_ok(*self, lim));
        }
        Ok(TrieStats {
            node_count: n,
            used,
            internal,
            leaves,
            tails,
            keys: leaves + tails,
            tail_bytes: trie.tails.len(),
            max_code: trie.max_code,
        })
    }

    /// Every key with its value, in depth-first order of the nodes.
    pub fn keys(&self) -> (r: Result<Vec<(u32, String)>, TrieError>)
        ensures
            r matches Err(e) ==> e is Corrupt,
            r is Ok ==> parts_ok(self.spec_blocks(), self.spec_tables(), self.spec_nodes()) && self.spec_max_code()
                == max_entry(self.spec_tables(), self.spec_tables().len() as int),
            r matches Ok(l) ==> forall|i: int| 0 <= i < l@.len() ==> key_value(*self, (#[trigger] l@[i]).1@) == Some(l@[i].0),
    {
        let trie = self.revalidate()?;
        let chars = trie.inverse_char_map()?;
        let tree = trie.child_lists()?;
        let nodes = trie.nodes;
        let n = nodes.len();
        if n >= UNUSED as usize {
            return Err(corrupt("too many nodes"));
        }
        let mut out: Vec<(u32, String)> = Vec::new();
        let mut prefix: Vec<char> = Vec::new();
        let mut stack: Vec<(usize, usize)> = Vec::new();
        stack.push((0, 0));
        let mut steps: usize = 0;
        while stack.len() > 0
            invariant
                n == nodes@.len(),
                n < UNUSED,
                trie.nodes@ == nodes@,
                chars@.len() == trie.max_code + 1,
                steps <= n + 1,
            decreases n + 1 - steps,
        {
            if steps > n {
                return Err(corrupt("internal error: more nodes visited than there are"));
            }
            steps = steps + 1;
            let (slot, plen) = match stack.pop() {
                Some(x) => x,
                None => (0, 0),
            };
            if slot >= n {
                return Err(corrupt("internal error: a slot is beyond the nodes"));
            }
            if plen < prefix.len() {
                prefix.truncate(plen);
            }
            let node = nodes[slot];
            if slot != 0 {
                let p = node.check as usize;
                if p >= n {
                    return Err(corrupt("a node's check is beyond the nodes"));
                }
                let parent_base = (nodes[p].base & BASE_MASK) as usize;
                if slot < parent_base || slot - parent_base >= chars.len() {
                    return Err(corrupt("a node is not among its children of the slot in its check"));
                }
                let code = slot - parent_base;
                if code != 0 {
                    prefix.push(chars[code]);
                }
            }
            let k = kind(node.base);
            if k == KIND_INTERNAL {
                trie.check_internal(slot, node)?;
                let len = prefix.len();
                let kids = tree.of(slot);
                let mut q: usize = kids.len();
                while q > 0
                    invariant
                        q <= kids@.len(),
                    decreases q,
                {
                    q = q - 1;
                    stack.push((kids[q] as usize, len));
                }
            } else if k == KIND_LEAF {
                out.push((node.base & PAYLOAD_MASK, crate::text::string_of(prefix.as_slice())));
            } else if k == KIND_TAIL {
                let b = node.base;
                assert(b & 0x3FFF_FFFFu32 < 0x4000_0000u32) by (bit_vector);
                let (value, suffix) = trie.tail_record(b & PAYLOAD_MASK)?;
                let rest = tail_str(suffix)?;
                let head = crate::text::string_of(prefix.as_slice());
                out.push((value, crate::text::concat(head.as_str(), rest)));
            } else {
                return Err(corrupt("a node has the invalid kind 01"));
            }
        }
        let mut i: usize = 0;
        while i < out.len()
            invariant
                i <= out@.len(),
                trie.blocks@ == self.blocks@,
                trie.tables@ == self.tables@,
                trie.nodes@ == self.nodes@,
                trie.tails@ == self.tails@,
                trie.max_code == self.max_code,
                forall|k: int| 0 <= k < i ==> key_value(*self, (#[trigger] out@[k]).1@) == Some(out@[k].0),
            decreases out@.len() - i,
        {
            match trie.get(out[i].1.as_str()) {
                Ok(Some(v)) => {
                    if v != out[i].0 {
                        return Err(corrupt("internal error: a listed key does not find its value"));
                    }
                },
                _ => {
                    return Err(corrupt("internal error: a listed key does not find its value"));
                },
            }
            i = i + 1;
        }
        Ok(out)
    }
}

/// No table serves two blocks.
pub open spec fn tables_unshared(blocks: Seq<u16>) -> bool {
    forall|a: int, b: int| 0 <= a < b < blocks.len() && blocks[a] != 0 ==> blocks[a] != blocks[b]
}

/// Some block uses table `t`.
pub open spec fn referenced(blocks: Seq<u16>, t: int) -> bool {
    exists|b: int| 0 <= b < blocks.len() && blocks[b] == t
}

/// Table `t` assigns some code.
pub open spec fn table_nonempty(tables: Seq<u16>, t: int) -> bool {
    exists|l: int| 0 <= l < 256 && #[trigger] tables[t * 256 + l] != 0
}

/// Every table but the zero table serves a block.
pub open spec fn tables_referenced(blocks: Seq<u16>, num_tables: int) -> bool {
    forall|t: int| 1 <= t < num_tables ==> #[trigger] referenced(blocks, t)
}

/// Every table but the zero table assigns some code.
pub open spec fn tables_nonempty(tables: Seq<u16>, num_tables: int) -> bool {
    forall|t: int| 1 <= t < num_tables ==> #[trigger] table_nonempty(tables, t)
}

/// The blocks of surrogates (U+D800..U+DFFF) use the zero table.
pub open spec fn no_surrogate_blocks(blocks: Seq<u16>) -> bool {
    forall|b: int| 0xD8 <= b < 0xE0 ==> blocks[b] == 0
}

/// How many entries of the tables after the zero table, below `m`, hold code `c`.
pub open spec fn code_count(tables: Seq<u16>, c: int, m: int) -> nat
    decreases m,
{
    if m <= 256 {
        0
    } else {
        code_count(tables, c, m - 1) + if tables[m - 1] == c {
            1nat
        } else {
            0nat
        }
    }
}

/// The char map is one-to-one between `1..=max_code` and characters: each table serves exactly
/// one block and assigns some code, no surrogate is assigned, and every code is assigned once.
pub open spec fn char_map_ok(blocks: Seq<u16>, tables: Seq<u16>, max_code: int) -> bool {
    let nt = (tables.len() / 256) as int;
    &&& tables_unshared(blocks)
    &&& tables_referenced(blocks, nt)
    &&& tables_nonempty(tables, nt)
    &&& no_surrogate_blocks(blocks)
    &&& forall|c: int| 1 <= c <= max_code ==> #[trigger] code_count(tables, c, tables.len() as int) == 1
}

proof fn lemma_max_entry_bound(t: Seq<u16>, k: int, i: int)
    requires
        0 <= i < k <= t.len(),
    ensures
        t[i] <= max_entry(t, k),
    decreases k,
{
    if i < k - 1 {
        lemma_max_entry_bound(t, k - 1, i);
    }
}

proof fn lemma_max_entry_le(t: Seq<u16>, k: int)
    ensures
        0 <= max_entry(t, k) <= 0xFFFF,
    decreases k,
{
    if k > 0 {
        lemma_max_entry_le(t, k - 1);
    }
}

proof fn lemma_code_count_le(tables: Seq<u16>, c: int, m: int)
    ensures
        code_count(tables, c, m) <= if m > 256 {
            m - 256
        } else {
            0
        },
    decreases m,
{
    if m > 256 {
        lemma_code_count_le(tables, c, m - 1);
    }
}

impl<'a> Trie<'a> {
    /// Checks the char map for [`Trie::verify`]: see [`char_map_ok`].
    fn check_char_map(&self) -> (r: Result<(), TrieError>)
        requires
            parts_ok(self.blocks@, self.tables@, self.nodes@),
            self.max_code == max_entry(self.tables@, self.tables@.len() as int),
        ensures
            r is Ok <==> char_map_ok(self.blocks@, self.tables@, self.max_code as int),
            r matches Err(e) ==> e is Corrupt,
    {
        let blocks = self.blocks;
        let tables = self.tables;
        let ghost bs = blocks@;
        let ghost ts = tables@;
        let nt = tables.len() / TABLE_LEN;
        let ghost ntg = nt as int;
        let mut owner: Vec<bool> = Vec::new();
        while owner.len() < nt
            invariant
                bs == self.blocks@,
                ts == self.tables@,
                ntg == nt,
                ntg == (self.tables@.len() / 256) as int,
                owner@.len() <= nt,
                forall|t: int| 0 <= t < owner@.len() ==> !owner@[t],
            decreases nt - owner@.len(),
        {
            owner.push(false);
        }
        let mut b: usize = 0;
        while b < blocks.len()
            invariant
                bs == self.blocks@,
                ts == self.tables@,
                ntg == nt,
                ntg == (self.tables@.len() / 256) as int,
                bs == blocks@,
                parts_ok(blocks@, tables@, self.nodes@),
                nt == tables@.len() / 256,
                owner@.len() == nt,
                b <= blocks@.len(),
                forall|t: int| 1 <= t < nt ==> (#[trigger] owner@[t] <==> exists|x: int| 0 <= x < b && blocks@[x] == t),
                forall|x: int, y: int| 0 <= x < y < b && blocks@[x] != 0 ==> blocks@[x] != blocks@[y],
            decreases blocks@.len() - b,
        {
            let t = blocks[b] as usize;
            assert(t < nt);
            if t != 0 {
                if owner[t] {
                    proof {
                        let x = choose|x: int| 0 <= x < b && blocks@[x] == t;
                        assert(!tables_unshared(bs)) by {
                            if tables_unshared(bs) {
                                assert(bs[x] != bs[b as int]);
                            }
                        };
                        assert(!char_map_ok(bs, ts, self.max_code as int));
                    }
                    return Err(corrupt("a char table is shared by two blocks"));
                }
                owner.set(t, true);
            }
            proof {
                assert forall|u: int| 1 <= u < nt implies (#[trigger] owner@[u] <==> exists|x: int| 0 <= x < b + 1 && blocks@[x] == u) by {
                    if u == t {
                        assert(blocks@[b as int] == u);
                    } else {
                        if exists|x: int| 0 <= x < b + 1 && blocks@[x] == u {
                            let x = choose|x: int| 0 <= x < b + 1 && blocks@[x] == u;
                            assert(x < b);
                        }
                    }
                };
                assert forall|x: int, y: int| 0 <= x < y < b + 1 && blocks@[x] != 0 implies blocks@[x] != blocks@[y] by {
                    if y == b && blocks@[x] == blocks@[y] {
                        assert(owner@[t as int]);
                    }
                };
            }
            b = b + 1;
        }
        assert(tables_unshared(bs));
        let mut t: usize = 1;
        while t < nt
            invariant
                bs == self.blocks@,
                ts == self.tables@,
                ntg == nt,
                ntg == (self.tables@.len() / 256) as int,
                owner@.len() == nt,
                nt == tables@.len() / 256,
                bs == blocks@,
                1 <= t,
                tables_unshared(bs),
                forall|u: int| 1 <= u < nt ==> (#[trigger] owner@[u] <==> referenced(bs, u)),
                forall|u: int| 1 <= u < t && u < nt ==> #[trigger] referenced(bs, u),
            decreases nt - t,
        {
            if !owner[t] {
                proof {
                    assert(!referenced(bs, t as int));
                    assert(!tables_referenced(bs, ntg));
                    assert(!char_map_ok(bs, ts, self.max_code as int));
                }
                return Err(corrupt("a char table is not referenced by any block"));
            }
            t = t + 1;
        }
        assert(tables_referenced(bs, ntg));
        let tl = tables.len();
        let mut t: usize = 1;
        while t < nt
            invariant
                bs == self.blocks@,
                ts == self.tables@,
                ntg == nt,
                ntg == (self.tables@.len() / 256) as int,
                tl == tables@.len(),
                ts == tables@,
                bs == blocks@,
                nt == tables@.len() / 256,
                ntg == nt,
                1 <= t,
                tables_unshared(bs),
                tables_referenced(bs, ntg),
                forall|u: int| 1 <= u < t && u < nt ==> #[trigger] table_nonempty(ts, u),
            decreases nt - t,
        {
            let mut any = false;
            let mut l: usize = 0;
            while l < TABLE_LEN
                invariant
                    bs == self.blocks@,
                    ts == self.tables@,
                bs == self.blocks@,
                ts == self.tables@,
                ntg == nt,
                ntg == (self.tables@.len() / 256) as int,
                    tl == tables@.len(),
                    ts == tables@,
                    nt == tables@.len() / 256,
                    1 <= t < nt,
                    l <= 256,
                    any <==> exists|x: int| 0 <= x < l && #[trigger] ts[t * 256 + x] != 0,
                decreases 256 - l,
            {
                assert(t * 256 + l < tl) by (nonlinear_arith)
                    requires
                        t < nt,
                        nt == tl / 256,
                        l < 256,
                ;
                if tables[t * TABLE_LEN + l] != 0 {
                    any = true;
                }
                l = l + 1;
            }
            if !any {
                proof {
                    assert(!table_nonempty(ts, t as int));
                    assert(!tables_nonempty(ts, ntg));
                    assert(!char_map_ok(bs, ts, self.max_code as int));
                }
                return Err(corrupt("a char table assigns no codes; such blocks must use table 0"));
            }
            t = t + 1;
        }
        assert(tables_nonempty(ts, ntg));
        let mut b: usize = 0xD8;
        while b < 0xE0
            invariant
                bs == self.blocks@,
                ts == self.tables@,
                ntg == nt,
                ntg == (self.tables@.len() / 256) as int,
                blocks@.len() == NUM_BLOCKS,
                bs == blocks@,
                0xD8 <= b <= 0xE0,
                forall|x: int| 0xD8 <= x < b ==> bs[x] == 0,
            decreases 0xE0 - b,
        {
            if blocks[b] != 0 {
                proof {
                    assert(!no_surrogate_blocks(bs)) by {
                        assert(bs[b as int] != 0);
                    };
                    assert(!char_map_ok(bs, ts, self.max_code as int));
                }
                return Err(corrupt("a code is assigned to a surrogate"));
            }
            b = b + 1;
        }
        assert(no_surrogate_blocks(bs));
        let mc = self.max_code as usize;
        proof {
            lemma_max_entry_le(ts, ts.len() as int);
        }
        let mut cnt: Vec<usize> = Vec::new();
        while cnt.len() <= mc
            invariant
                bs == self.blocks@,
                ts == self.tables@,
                ntg == nt,
                ntg == (self.tables@.len() / 256) as int,
                mc == self.max_code,
                cnt@.len() <= mc + 1,
                forall|c: int| 0 <= c < cnt@.len() ==> cnt@[c] == 0,
            decreases mc + 1 - cnt@.len(),
        {
            cnt.push(0);
        }
        let mut i: usize = TABLE_LEN;
        while i < tl
            invariant
                bs == self.blocks@,
                ts == self.tables@,
                ntg == nt,
                ntg == (self.tables@.len() / 256) as int,
                mc == self.max_code,
                tl == tables@.len(),
                ts == tables@,
                tl >= 256,
                256 <= i <= tl,
                cnt@.len() == mc + 1,
                mc == max_entry(ts, tl as int),
                forall|c: int| 1 <= c <= mc ==> #[trigger] cnt@[c] == code_count(ts, c, i as int),
            decreases tl - i,
        {
            let c = tables[i] as usize;
            proof {
                lemma_max_entry_bound(ts, tl as int, i as int);
                lemma_code_count_le(ts, c as int, i as int);
            }
            if c != 0 {
                cnt.set(c, cnt[c] + 1);
            }
            i = i + 1;
        }
        let mut c: usize = 1;
        while c <= mc
            invariant
                bs == self.blocks@,
                ts == self.tables@,
                ntg == nt,
                ntg == (self.tables@.len() / 256) as int,
                mc == self.max_code,
                cnt@.len() == mc + 1,
                tl == ts.len(),
                mc <= 0xFFFF,
                1 <= c <= mc + 1,
                forall|d: int| 1 <= d <= mc ==> #[trigger] cnt@[d] == code_count(ts, d, tl as int),
                forall|d: int| 1 <= d < c ==> #[trigger] cnt@[d] <= 1,
            decreases mc + 1 - c,
        {
            if cnt[c] > 1 {
                proof {
                    assert(code_count(ts, c as int, tl as int) != 1);
                    assert(!char_map_ok(bs, ts, self.max_code as int));
                }
                return Err(corrupt("a code is assigned to both of two characters"));
            }
            c = c + 1;
        }
        let mut c: usize = 1;
        while c <= mc
            invariant
                bs == self.blocks@,
                ts == self.tables@,
                ntg == nt,
                ntg == (self.tables@.len() / 256) as int,
                mc == self.max_code,
                cnt@.len() == mc + 1,
                tl == ts.len(),
                mc <= 0xFFFF,
                1 <= c <= mc + 1,
                forall|d: int| 1 <= d <= mc ==> #[trigger] cnt@[d] == code_count(ts, d, tl as int),
                forall|d: int| 1 <= d <= mc ==> #[trigger] cnt@[d] <= 1,
                forall|d: int| 1 <= d < c ==> #[trigger] cnt@[d] == 1,
            decreases mc + 1 - c,
        {
            if cnt[c] == 0 {
                proof {
                    assert(code_count(ts, c as int, tl as int) != 1);
                    assert(!char_map_ok(bs, ts, self.max_code as int));
                }
                return Err(corrupt("a code is not assigned to any character"));
            }
            c = c + 1;
        }
        proof {
            assert forall|d: int| 1 <= d <= mc implies #[trigger] code_count(ts, d, ts.len() as int) == 1 by {
                assert(cnt@[d] == 1);
            };
        }
        Ok(())
    }
}

/// A used slot (its check is not [`UNUSED`]).
pub open spec fn is_used(nodes: Seq<Node>, s: int) -> bool {
    nodes[s].check != UNUSED
}

/// A used LEAF or TAIL: a node that ends a key.
pub open spec fn is_key_node(nodes: Seq<Node>, s: int) -> bool {
    is_used(nodes, s) && (spec_kind(nodes[s].base) == KIND_LEAF || spec_kind(nodes[s].base) == KIND_TAIL)
}

/// The parent of used slot `s` (its check) is a used INTERNAL whose base puts `s` among its
/// children; at the END position, only a LEAF under HAS_END.
pub open spec fn parent_ok(nodes: Seq<Node>, max_code: u32, s: int) -> bool {
    let p = nodes[s].check as int;
    &&& p < nodes.len()
    &&& nodes[p].check != UNUSED
    &&& spec_kind(nodes[p].base) == KIND_INTERNAL
    &&& child_base(nodes[p].base) <= s
    &&& s - child_base(nodes[p].base) <= max_code
    &&& s == child_base(nodes[p].base) ==> (nodes[p].base & HAS_END != 0 && spec_kind(nodes[s].base) == KIND_LEAF)
}

/// The slot `k` steps up the checks from `s` (-1 once a check leaves the nodes).
pub open spec fn ancestor(nodes: Seq<Node>, s: int, k: nat) -> int
    decreases k,
{
    if k == 0 {
        s
    } else {
        let a = ancestor(nodes, s, (k - 1) as nat);
        if 0 <= a < nodes.len() {
            nodes[a].check as int
        } else {
            -1
        }
    }
}

/// Following the checks from `s` reaches the root (within as many steps as there are nodes).
pub open spec fn reaches_root(nodes: Seq<Node>, s: int) -> bool {
    exists|k: nat| k <= nodes.len() && #[trigger] ancestor(nodes, s, k) == 0
}

/// How many of the first `j` steps up from `s` land on `p`.
pub open spec fn occ(nodes: Seq<Node>, s: int, p: int, j: nat) -> nat
    decreases j,
{
    if j == 0 {
        0
    } else {
        occ(nodes, s, p, (j - 1) as nat) + if ancestor(nodes, s, j) == p {
            1nat
        } else {
            0nat
        }
    }
}

/// The keys below `p` among the first `m` slots: for each node that ends a key, how often `p` lies
/// on its way up (once each in a tree).
pub open spec fn keys_below(nodes: Seq<Node>, p: int, m: int) -> nat
    decreases m,
{
    if m <= 0 {
        0
    } else {
        keys_below(nodes, p, m - 1) + if is_key_node(nodes, m - 1) {
            occ(nodes, m - 1, p, nodes.len() as nat)
        } else {
            0nat
        }
    }
}

/// Everything [`Trie::verify`] checks: the parts as [`Trie::new`] checks them with the max code
/// they give, a one-to-one char map, every slot, the parent of every used node, every used node
/// reachable from the root, some key, and at least two keys below every INTERNAL but the root.
pub open spec fn verify_ok(t: Trie, limit: u32) -> bool {
    let nodes = t.spec_nodes();
    let n = nodes.len() as int;
    &&& parts_ok(t.spec_blocks(), t.spec_tables(), nodes)
    &&& t.spec_max_code() == max_entry(t.spec_tables(), t.spec_tables().len() as int)
    &&& char_map_ok(t.spec_blocks(), t.spec_tables(), t.spec_max_code() as int)
    &&& forall|q: int| 0 <= q < n ==> #[trigger] slot_ok(nodes, t.spec_tails(), t.spec_max_code(), limit, q)
    &&& forall|q: int| 1 <= q < n && is_used(nodes, q) ==> #[trigger] parent_ok(nodes, t.spec_max_code(), q)
    &&& forall|q: int| 0 <= q < n && is_used(nodes, q) ==> #[trigger] reaches_root(nodes, q)
    &&& exists|q: int| 0 <= q < n && #[trigger] is_key_node(nodes, q)
    &&& forall|q: int|
        1 <= q < n && is_used(nodes, q) && spec_kind(nodes[q].base) == KIND_INTERNAL ==> #[trigger] keys_below(nodes, q, n)
            >= 2
}

proof fn lemma_verify_slot(t: Trie, lim: u32, q: int)
    requires
        verify_ok(t, lim),
        0 <= q < t.spec_nodes().len(),
    ensures
        slot_ok(t.spec_nodes(), t.spec_tails(), t.spec_max_code(), lim, q),
{
}

proof fn lemma_ancestor_stuck(nodes: Seq<Node>, s: int, i: nat, k: nat)
    requires
        i < k,
        !(0 <= ancestor(nodes, s, i) < nodes.len()),
    ensures
        ancestor(nodes, s, k) == -1,
    decreases k - i,
{
    if i + 1 < k {
        lemma_ancestor_stuck(nodes, s, i, (k - 1) as nat);
    }
}

proof fn lemma_ancestor_root(nodes: Seq<Node>, s: int, i: nat, k: nat)
    requires
        i <= k,
        nodes.len() > 0,
        nodes[0].check == 0,
        ancestor(nodes, s, i) == 0,
    ensures
        ancestor(nodes, s, k) == 0,
    decreases k - i,
{
    if i < k {
        lemma_ancestor_root(nodes, s, i, (k - 1) as nat);
    }
}

proof fn lemma_occ_root(nodes: Seq<Node>, s: int, p: int, i: nat, k: nat)
    requires
        i <= k,
        p != 0,
        nodes.len() > 0,
        nodes[0].check == 0,
        ancestor(nodes, s, i) == 0,
    ensures
        occ(nodes, s, p, k) == occ(nodes, s, p, i),
    decreases k - i,
{
    if i < k {
        lemma_occ_root(nodes, s, p, i, (k - 1) as nat);
        lemma_ancestor_root(nodes, s, i, k);
    }
}

proof fn lemma_occ_le(nodes: Seq<Node>, s: int, p: int, j: nat)
    ensures
        occ(nodes, s, p, j) <= j,
    decreases j,
{
    if j > 0 {
        lemma_occ_le(nodes, s, p, (j - 1) as nat);
    }
}

impl<'a> Trie<'a> {
    /// Whether every used node reaches the root by its checks.
    fn check_reach(&self) -> (r: Result<(), TrieError>)
        requires
            self.nodes@.len() > 0,
        ensures
            r is Ok <==> forall|q: int| 0 <= q < self.nodes@.len() && is_used(self.nodes@, q) ==> #[trigger] reaches_root(self.nodes@, q),
            r matches Err(e) ==> e is Corrupt,
    {
        let nodes = self.nodes;
        let n = nodes.len();
        let ghost ns = nodes@;
        let mut s: usize = 0;
        while s < n
            invariant
                n == ns.len(),
                ns == nodes@,
                ns == self.nodes@,
                s <= n,
                forall|q: int| 0 <= q < s && is_used(ns, q) ==> #[trigger] reaches_root(ns, q),
            decreases n - s,
        {
            if nodes[s].check != UNUSED {
                let mut cur: usize = s;
                let mut j: usize = 0;
                while cur != 0 && j < n
                    invariant
                        n == ns.len(),
                        ns == nodes@,
                        ns == self.nodes@,
                        s < n,
                        ns[s as int].check != UNUSED,
                        j <= n,
                        cur as int == ancestor(ns, s as int, j as nat),
                        cur < n,
                        forall|i: nat| i < j ==> #[trigger] ancestor(ns, s as int, i) != 0,
                    decreases n - j,
                {
                    let next = nodes[cur].check as usize;
                    if next >= n {
                        proof {
                            assert(ancestor(ns, s as int, (j + 1) as nat) == next as int);
                            assert forall|k: nat| k <= ns.len() implies #[trigger] ancestor(ns, s as int, k) != 0 by {
                                if k > j + 1 {
                                    lemma_ancestor_stuck(ns, s as int, (j + 1) as nat, k);
                                } else if k == j + 1 {
                                } else if k == j {
                                }
                            };
                            assert(!reaches_root(ns, s as int));
                        }
                        return Err(corrupt("a slot is in use but not reachable from the root (cycle or detached subtree)"));
                    }
                    proof {
                        assert(ancestor(ns, s as int, (j + 1) as nat) == next as int);
                    }
                    cur = next;
                    j = j + 1;
                }
                if cur != 0 {
                    proof {
                        assert forall|k: nat| k <= ns.len() implies #[trigger] ancestor(ns, s as int, k) != 0 by {
                            if k == j {
                            }
                        };
                        assert(!reaches_root(ns, s as int));
                    }
                    return Err(corrupt("a slot is in use but not reachable from the root (cycle or detached subtree)"));
                }
                proof {
                    assert(ancestor(ns, s as int, j as nat) == 0);
                    assert(reaches_root(ns, s as int));
                }
            }
            s = s + 1;
        }
        Ok(())
    }

    /// For each slot, the keys below it (see [`keys_below`]); every used node must reach the root.
    fn count_keys_below(&self) -> (r: Vec<u64>)
        requires
            self.nodes@.len() > 0,
            self.nodes@.len() < UNUSED,
            self.nodes@[0].check == 0,
            spec_kind(self.nodes@[0].base) == KIND_INTERNAL,
            forall|q: int| 0 <= q < self.nodes@.len() && is_used(self.nodes@, q) ==> #[trigger] reaches_root(self.nodes@, q),
        ensures
            r@.len() == self.nodes@.len(),
            forall|p: int| 1 <= p < self.nodes@.len() ==> #[trigger] r@[p] == keys_below(self.nodes@, p, self.nodes@.len() as int),
    {
        let nodes = self.nodes;
        let n = nodes.len();
        let ghost ns = nodes@;
        let mut below: Vec<u64> = Vec::new();
        while below.len() < n
            invariant
                below@.len() <= n,
                forall|p: int| 0 <= p < below@.len() ==> below@[p] == 0,
            decreases n - below@.len(),
        {
            below.push(0);
        }
        let mut s: usize = 0;
        while s < n
            invariant
                n == ns.len(),
                ns == nodes@,
                ns == self.nodes@,
                n < UNUSED,
                ns[0].check == 0,
                spec_kind(ns[0].base) == KIND_INTERNAL,
                forall|q: int| 0 <= q < n && is_used(ns, q) ==> #[trigger] reaches_root(ns, q),
                below@.len() == n,
                s <= n,
                forall|p: int| 1 <= p < n ==> #[trigger] below@[p] == keys_below(ns, p, s as int),
                forall|p: int| 1 <= p < n ==> #[trigger] below@[p] <= s * n,
            decreases n - s,
        {
            let node = nodes[s];
            let k = kind(node.base);
            if node.check != UNUSED && (k == KIND_LEAF || k == KIND_TAIL) {
                let ghost base_counts = below@;
                let mut cur: usize = node.check as usize;
                let mut j: usize = 1;
                proof {
                    assert(ancestor(ns, s as int, 0) == s as int);
                    assert(ancestor(ns, s as int, 1) == node.check as int);
                    assert(reaches_root(ns, s as int));
                    assert(s != 0);
                    assert forall|p: int| 1 <= p < n implies #[trigger] below@[p] == base_counts[p] + occ(ns, s as int, p, 0) by {};
                    assert forall|i: nat| i < 1 implies #[trigger] ancestor(ns, s as int, i) != 0 by {};
                }
                while cur != 0
                    invariant
                        n == ns.len(),
                        ns == nodes@,
                        n < UNUSED,
                        ns[0].check == 0,
                        s < n,
                        s != 0,
                        reaches_root(ns, s as int),
                        1 <= j <= n,
                        cur as int == ancestor(ns, s as int, j as nat),
                        forall|i: nat| i < j ==> #[trigger] ancestor(ns, s as int, i) != 0,
                        below@.len() == n,
                        forall|p: int| 1 <= p < n ==> #[trigger] below@[p] == base_counts[p] + occ(ns, s as int, p, (j - 1) as nat),
                        forall|p: int| 1 <= p < n ==> #[trigger] base_counts[p] == keys_below(ns, p, s as int),
                        forall|p: int| 1 <= p < n ==> #[trigger] base_counts[p] <= s * n,
                    decreases n - j,
                {
                    let ghost kk = choose|kk: nat| kk <= ns.len() && #[trigger] ancestor(ns, s as int, kk) == 0;
                    proof {
                        if !(cur < n) {
                            lemma_ancestor_stuck(ns, s as int, j as nat, kk);
                        }
                        assert(kk > j);
                        lemma_occ_le(ns, s as int, cur as int, (j - 1) as nat);
                        assert(base_counts[cur as int] + occ(ns, s as int, cur as int, (j - 1) as nat) + 1 <= s * n + n) by (nonlinear_arith)
                            requires
                                base_counts[cur as int] <= s * n,
                                occ(ns, s as int, cur as int, (j - 1) as nat) <= j - 1,
                                j <= n,
                        ;
                        assert(s * n + n <= n * n) by (nonlinear_arith)
                            requires
                                s < n,
                        ;
                        assert(n * n < 0x1_0000_0000_0000_0000) by (nonlinear_arith)
                            requires
                                n < 0x1_0000_0000,
                        ;
                    }
                    below.set(cur, below[cur] + 1);
                    let next = nodes[cur].check as usize;
                    proof {
                        assert(ancestor(ns, s as int, (j + 1) as nat) == next as int);
                    }
                    cur = next;
                    j = j + 1;
                }
                proof {
                    assert forall|p: int| 1 <= p < n implies #[trigger] below@[p] == keys_below(ns, p, s + 1) by {
                        lemma_occ_root(ns, s as int, p, j as nat, n as nat);
                        assert(occ(ns, s as int, p, j as nat) == occ(ns, s as int, p, (j - 1) as nat));
                    };
                    assert forall|p: int| 1 <= p < n implies #[trigger] below@[p] <= (s + 1) * n by {
                        lemma_occ_le(ns, s as int, p, (j - 1) as nat);
                        assert(s * n + n == (s + 1) * n) by (nonlinear_arith);
                    };
                }
            } else {
                proof {
                    assert forall|p: int| 1 <= p < n implies #[trigger] below@[p] <= (s + 1) * n by {
                        assert(s * n <= (s + 1) * n) by (nonlinear_arith)
                            requires
                                n >= 0,
                        ;
                    };
                }
            }
            s = s + 1;
        }
        below
    }
}

} // verus!
