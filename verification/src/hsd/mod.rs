//! The dictionary file format: a 64-byte header, a section table and sections on 64-byte
//! boundaries, all numbers little-endian.

pub mod container;
pub mod features;
pub mod image;
pub mod meta;
pub mod records;
pub mod strtab;
pub mod trie;

use vstd::prelude::*;
use crate::text::concat;

verus! {

/// Errors of reading, writing and checking dictionaries.
#[derive(Debug, Clone, PartialEq, Eq)]
pub enum DictError {
    /// Not a dictionary file (the magic bytes differ)
    NotHsd,
    /// A format version this library does not read
    UnsupportedVersion(u32),
    /// Big-endian machines cannot read the format
    UnsupportedPlatform,
    /// The file breaks the format
    Corrupt(String),
    /// Input that cannot make a dictionary
    Invalid(String),
    /// No dictionary at the default places (the places searched)
    NotFound(Vec<String>),
}

/// The decimal digits of `v`.
pub open spec fn decimal(v: nat) -> Seq<char>
    decreases v,
{
    if v < 10 {
        seq![digit_char(v)]
    } else {
        decimal(v / 10).push(digit_char(v % 10))
    }
}

pub open spec fn digit_char(d: nat) -> char {
    if d == 0 {
        '0'
    } else if d == 1 {
        '1'
    } else if d == 2 {
        '2'
    } else if d == 3 {
        '3'
    } else if d == 4 {
        '4'
    } else if d == 5 {
        '5'
    } else if d == 6 {
        '6'
    } else if d == 7 {
        '7'
    } else if d == 8 {
        '8'
    } else {
        '9'
    }
}

fn digit(d: u32) -> (c: char)
    requires
        d < 10,
    ensures
        c == digit_char(d as nat),
{
    if d == 0 {
        '0'
    } else if d == 1 {
        '1'
    } else if d == 2 {
        '2'
    } else if d == 3 {
        '3'
    } else if d == 4 {
        '4'
    } else if d == 5 {
        '5'
    } else if d == 6 {
        '6'
    } else if d == 7 {
        '7'
    } else if d == 8 {
        '8'
    } else {
        '9'
    }
}

/// `v` in decimal.
fn decimal_string(v: u32) -> (r: String)
    ensures
        r@ == decimal(v as nat),
    decreases v,
{
    if v < 10 {
        let cs = [digit(v)];
        let r = crate::text::string_of(&cs);
        proof {
            assert(cs@ =~= seq![digit_char(v as nat)]);
        }
        r
    } else {
        let head = decimal_string(v / 10);
        let cs = [digit(v % 10)];
        let tail = crate::text::string_of(&cs);
        let r = concat(head.as_str(), tail.as_str());
        proof {
            assert(cs@ =~= seq![digit_char((v % 10) as nat)]);
            assert(r@ =~= decimal((v / 10) as nat).push(digit_char((v % 10) as nat)));
        }
        r
    }
}

/// The first `n` places joined with `, `.
pub open spec fn joined_places(ps: Seq<String>, n: int) -> Seq<char>
    decreases n,
{
    if n <= 0 {
        Seq::empty()
    } else if n == 1 {
        ps[0]@
    } else {
        joined_places(ps, n - 1) + ", "@ + ps[n - 1]@
    }
}

/// The places joined with `, `.
fn join_places(places: &Vec<String>) -> (r: String)
    ensures
        r@ == joined_places(places@, places@.len() as int),
{
    let mut out = String::new();
    let mut i: usize = 0;
    while i < places.len()
        invariant
            i <= places@.len(),
            out@ == joined_places(places@, i as int),
        decreases places.len() - i,
    {
        if i > 0 {
            out = concat(out.as_str(), ", ");
        }
        out = concat(out.as_str(), places[i].as_str());
        i = i + 1;
    }
    out
}

impl DictError {
    /// The message shown to users.
    pub fn message(&self) -> (r: String)
        ensures
            self matches DictError::NotHsd ==> r@ == "not a hasami dictionary (.hsd): magic bytes mismatch"@,
            self matches DictError::Invalid(m) ==> r@ == m@,
            self matches DictError::Corrupt(m) ==> r@ == "corrupt dictionary: "@ + m@,
            self matches DictError::UnsupportedVersion(v) ==> r@ == if 1 <= *v && *v <= 4 {
                "dictionary format v"@ + decimal(*v as nat)
                    + " is no longer supported; rebuild it with scripts/build-dict.sh (or `hasami build`) to get the v4 format"@
            } else {
                "unsupported dictionary format version: "@ + decimal(*v as nat) + " (this hasami reads v4)"@
            },
            self matches DictError::UnsupportedPlatform ==> r@ == "big-endian machines are not supported by the .hsd format"@,
            self matches DictError::NotFound(places) ==> r@ == "no dictionary found (searched: "@ + joined_places(
                places@,
                places@.len() as int,
            ) + "); run `hasami dict download` to put the recommended dictionary in the data directory, or set HASAMI_DICT to a .hsd file"@,
    {
        match self {
            DictError::NotHsd => "not a hasami dictionary (.hsd): magic bytes mismatch".to_owned(),
            DictError::UnsupportedVersion(v) => {
                let n = decimal_string(*v);
                if 1 <= *v && *v <= 4 {
                    let a = concat("dictionary format v", n.as_str());
                    concat(
                        a.as_str(),
                        " is no longer supported; rebuild it with scripts/build-dict.sh (or `hasami build`) to get the v4 format",
                    )
                } else {
                    let a = concat("unsupported dictionary format version: ", n.as_str());
                    concat(a.as_str(), " (this hasami reads v4)")
                }
            },
            DictError::UnsupportedPlatform => "big-endian machines are not supported by the .hsd format".to_owned(),
            DictError::Corrupt(m) => concat("corrupt dictionary: ", m.as_str()),
            DictError::Invalid(m) => m.clone(),
            DictError::NotFound(places) => {
                let joined = join_places(places);
                let a = concat("no dictionary found (searched: ", joined.as_str());
                concat(
                    a.as_str(),
                    "); run `hasami dict download` to put the recommended dictionary in the data directory, or set HASAMI_DICT to a .hsd file",
                )
            },
        }
    }
}

} // verus!
